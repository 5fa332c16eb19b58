//! Tile-addressable procedural texture synthesis in exact arithmetic, with
//! measured parameter stability.
//!
//! # Synthesis
//!
//! [`Material`] is a small record of knobs. Sampling it is a pure function of
//! position, with no stream state anywhere, so a distant tile costs what tile
//! (0, 0) costs and rendering it does not depend on which tiles came before.
//! Adjacent tiles meet without a seam because both are windows on one field.
//!
//! [`exact`] runs the synthesis in Q4.27 integers, so that every machine
//! renders the same bits. Numbers that callers supply as floating point, and
//! the samples that come out, are held as their bit patterns: see [`ieee`].
//!
//! # Laws
//!
//! Contracts say what each function computes. Other modules state and prove
//! what follows for the whole:
//!
//! - [`numbers`] and [`knobs`]: what bit patterns stand for, and what the
//!   knobs of a material take;
//! - [`interpolation`], [`cellular`] and [`octaves`]: what the noises and
//!   their sums are, as real numbers;
//! - [`tones`] and [`shades`]: what a sample is, and its byte in a picture;
//! - [`ranges`], [`continuity`] and [`smoothness`]: how large the field gets,
//!   and how fast it changes;
//! - [`plane`], [`window`], [`grid`] and [`seam`]: what a tile shows, and how
//!   tiles meet;
//! - [`checksum`] and [`png_reader`]: what a checksum sees, and that an
//!   encoded image reads back.
//!
//! # Images
//!
//! [`png`] encodes an image, and [`sheet`] lays several tiles out on one.
//!
//! # Stability
//!
//! [`features`] and [`analysis`] hold what a stability analysis decides:
//! which measurements support an error bound, and how knobs are ranked. What
//! a compute device is told is laid out in [`gpu`].

pub mod analysis;
pub mod cellular;
pub mod checksum;
pub mod continuity;
pub mod exact;
pub mod features;
pub mod fixed;
pub mod gpu;
pub mod grid;
pub mod hash;
pub mod ieee;
pub mod interpolation;
pub mod knobs;
pub mod lattice;
pub mod material;
pub mod math;
pub mod noise;
pub mod numbers;
pub mod octaves;
pub mod plane;
pub mod png;
pub mod png_reader;
pub mod quintic;
pub mod ranges;
pub mod seam;
pub mod shades;
pub mod sheet;
pub mod smoothness;
pub mod tones;
pub mod window;

pub use features::Feature;
pub use material::{Material, Pattern, Tile, TileId};
pub use noise::Basis;
