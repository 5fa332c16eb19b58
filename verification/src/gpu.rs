//! What a compute device is told, and how much of it to use.
//!
//! Talking to a device is not done here. This module lays out the parameter
//! blocks that the device programs read, as sixteen 32-bit words, and plans
//! the dispatch over a tile.

use vstd::prelude::*;

use crate::exact;
use crate::exact::{Lat, Prepared};
use crate::fixed::{Fx, ONE};
use crate::ieee;
use crate::ieee::F32;
use crate::material::{Material, Pattern, Tile, TileId};
use crate::noise::Basis;

verus! {

/// Why a device could not be used.
#[derive(Debug, Clone)]
pub struct Unavailable(pub String);

impl Unavailable {
    /// The reason, as a sentence for people.
    pub fn message(&self) -> (r: String)
        ensures
            r@ == "no usable compute device: "@ + self.0@,
    {
        let mut r: String = "no usable compute device: ".to_owned();
        r.append(self.0.as_str());
        r
    }
}

/// A description of a device for people: its name, and in brackets what it
/// is driven by and what kind it is.
pub fn device_name(name: &str, backend: &str, kind: &str) -> (r: String)
    ensures
        r@ == name@ + " ("@ + backend@ + ", "@ + kind@ + ")"@,
{
    let mut r: String = name.to_owned();
    r.append(" (");
    r.append(backend);
    r.append(", ");
    r.append(kind);
    r.append(")");
    r
}

/// The code of a basis in a parameter block.
pub open spec fn basis_word(b: Basis) -> u32 {
    match b {
        Basis::Value => 0,
        Basis::Gradient => 1,
        Basis::Worley => 2,
    }
}

/// The code of a basis in a parameter block.
pub fn basis_code(b: Basis) -> (r: u32)
    ensures
        r == basis_word(b),
{
    match b {
        Basis::Value => 0,
        Basis::Gradient => 1,
        Basis::Worley => 2,
    }
}

/// The code of a pattern in a parameter block.
pub open spec fn pattern_word(p: Pattern) -> u32 {
    match p {
        Pattern::Fractal => 0,
        Pattern::Ridged => 1,
        Pattern::Warped => 2,
    }
}

/// The code of a pattern in a parameter block.
pub fn pattern_code(p: Pattern) -> (r: u32)
    ensures
        r == pattern_word(p),
{
    match p {
        Pattern::Fractal => 0,
        Pattern::Ridged => 1,
        Pattern::Warped => 2,
    }
}

/// Byte `k` of a word, counted from the low end.
pub open spec fn byte_of(word: u32, k: int) -> u8 {
    if k == 0 {
        (word as int % 256) as u8
    } else if k == 1 {
        (word as int / 0x100 % 256) as u8
    } else if k == 2 {
        (word as int / 0x1_0000 % 256) as u8
    } else {
        (word as int / 0x100_0000 % 256) as u8
    }
}

/// Words as bytes, the low byte of each first.
pub open spec fn little_endian(words: Seq<u32>) -> Seq<u8> {
    Seq::new(4 * words.len(), |i: int| byte_of(words[i / 4], i % 4))
}

/// Words as bytes, the high byte of each first.
pub open spec fn big_endian(words: Seq<u32>) -> Seq<u8> {
    Seq::new(4 * words.len(), |i: int| byte_of(words[i / 4], 3 - i % 4))
}

/// Words as the bytes that a machine holds them in, of either byte order.
pub open spec fn in_memory(bytes: Seq<u8>, words: Seq<u32>) -> bool {
    bytes == little_endian(words) || bytes == big_endian(words)
}

/// The bytes of sixteen words, in the order the machine holds them in.
///
/// Calls `bytemuck::bytes_of`, which reads the array in place: four bytes
/// for each word, in the order of the words, and within a word in the
/// machine's own byte order. Which of the two orders that is is not stated.
#[verifier::external_body]
fn words_in_memory(words: &[u32; 16]) -> (out: Vec<u8>)
    ensures
        in_memory(out@, words@),
{
    bytemuck::bytes_of(words).to_vec()
}

/// The outside error of a refused reading.
#[verifier::external_type_specification]
#[verifier::external_body]
pub struct ExPodCastError(bytemuck::PodCastError);

/// The words that bytes in memory hold.
///
/// Calls `bytemuck::try_cast_slice`, which reads the bytes in place: one word
/// for every four of them, in the machine's own byte order. It refuses bytes
/// that are not a whole number of words, and bytes whose address is not a
/// multiple of a word's alignment. Which byte order it is, and which
/// addresses are aligned, is not stated.
#[verifier::external_body]
fn words_from_memory(bytes: &[u8]) -> (r: Result<Vec<u32>, bytemuck::PodCastError>)
    ensures
        r matches Ok(words) ==> in_memory(bytes@, words@),
{
    Ok(bytemuck::try_cast_slice::<u8, u32>(bytes)?.to_vec())
}

/// Parameters for the floating-point pipeline.
#[derive(Debug, Clone, Copy, PartialEq)]
pub struct Params {
    /// Cell of the tile's first pixel, horizontally.
    pub origin_cell_x: i32,
    /// Cell of the tile's first pixel, vertically.
    pub origin_cell_y: i32,
    /// Offset of the first pixel in its cell, horizontally.
    pub origin_frac_x: F32,
    /// Offset of the first pixel in its cell, vertically.
    pub origin_frac_y: F32,
    /// Edge length of the tile in pixels.
    pub size: u32,
    /// Hash seed.
    pub seed: u32,
    /// Octave count.
    pub octaves: u32,
    /// Ridge exponent.
    pub sharpness: u32,
    /// See [`basis_code`].
    pub basis: u32,
    /// See [`pattern_code`].
    pub pattern: u32,
    /// Distance between pixels, in cells.
    pub step: F32,
    /// Domain warp strength.
    pub warp: F32,
    /// Contrast multiplier about `pivot`.
    pub contrast: F32,
    /// The value contrast pivots around.
    pub pivot: F32,
}

impl Params {
    /// The parameters for a material, a tile's origin and its pixel step.
    pub fn new(
        m: &Material,
        cell_x: i32,
        cell_y: i32,
        frac_x: F32,
        frac_y: F32,
        step: F32,
        size: u32,
    ) -> (r: Self)
        ensures
            r == (Params {
                origin_cell_x: cell_x,
                origin_cell_y: cell_y,
                origin_frac_x: frac_x,
                origin_frac_y: frac_y,
                size,
                seed: m.seed,
                octaves: m.octaves,
                sharpness: m.sharpness,
                basis: basis_word(m.basis),
                pattern: pattern_word(m.pattern),
                step,
                warp: m.warp,
                contrast: m.contrast,
                pivot: m.pivot,
            }),
    {
        Params {
            origin_cell_x: cell_x,
            origin_cell_y: cell_y,
            origin_frac_x: frac_x,
            origin_frac_y: frac_y,
            size,
            seed: m.seed,
            octaves: m.octaves,
            sharpness: m.sharpness,
            basis: basis_code(m.basis),
            pattern: pattern_code(m.pattern),
            step,
            warp: m.warp,
            contrast: m.contrast,
            pivot: m.pivot,
        }
    }

    /// The words of the block, the last two of them padding.
    pub open spec fn words(self) -> Seq<u32> {
        seq![
            self.origin_cell_x as u32,
            self.origin_cell_y as u32,
            self.origin_frac_x.bits,
            self.origin_frac_y.bits,
            self.size,
            self.seed,
            self.octaves,
            self.sharpness,
            self.basis,
            self.pattern,
            self.step.bits,
            self.warp.bits,
            self.contrast.bits,
            self.pivot.bits,
            0u32,
            0u32,
        ]
    }

    /// The block as words, in the order they are uploaded in.
    pub fn to_words(&self) -> (r: [u32; 16])
        ensures
            r@ == self.words(),
    {
        let words: [u32; 16] = [
            #[verifier::truncate]
            (self.origin_cell_x as u32),
            #[verifier::truncate]
            (self.origin_cell_y as u32),
            self.origin_frac_x.bits,
            self.origin_frac_y.bits,
            self.size,
            self.seed,
            self.octaves,
            self.sharpness,
            self.basis,
            self.pattern,
            self.step.bits,
            self.warp.bits,
            self.contrast.bits,
            self.pivot.bits,
            0,
            0,
        ];
        assert(words@ =~= self.words());
        words
    }

    /// The block as it is uploaded: its words, in the machine's byte order.
    pub fn to_bytes(&self) -> (out: Vec<u8>)
        ensures
            in_memory(out@, self.words()),
    {
        words_in_memory(&self.to_words())
    }
}

/// Parameters for the fixed-point pipeline.
///
/// Every field is an integer, including the ones that are floats in
/// [`Params`]: no float crosses to the device.
#[derive(Debug, Clone, Copy, PartialEq, Eq, Structural)]
pub struct ParamsExact {
    /// Cell of the tile's first pixel, horizontally.
    pub origin_cell_x: i32,
    /// Cell of the tile's first pixel, vertically.
    pub origin_cell_y: i32,
    /// Offset of the first pixel in its cell, horizontally.
    pub origin_frac_x: Fx,
    /// Offset of the first pixel in its cell, vertically.
    pub origin_frac_y: Fx,
    /// Edge length of the tile in pixels.
    pub size: u32,
    /// Hash seed.
    pub seed: u32,
    /// Octave count.
    pub octaves: u32,
    /// Ridge exponent.
    pub sharpness: u32,
    /// See [`basis_code`].
    pub basis: u32,
    /// See [`pattern_code`].
    pub pattern: u32,
    /// Distance between pixels, in steps of 2^-27.
    pub step: Fx,
    /// Domain warp strength.
    pub warp: Fx,
    /// Contrast multiplier about `pivot`.
    pub contrast: Fx,
    /// The value contrast pivots around.
    pub pivot: Fx,
    /// Reciprocal of the normalisation for `octaves` octaves.
    pub recip: Fx,
    /// Reciprocal of the normalisation for the two-octave warp fields.
    pub recip2: Fx,
}

impl ParamsExact {
    /// The parameters for a material's tile, from the same prepared
    /// material, the same origin and the same step that the host renders
    /// with.
    pub open spec fn of(m: Material, tile: TileId, size: u32) -> ParamsExact {
        let p = exact::prepared(m);
        let (ox, oy) = (m.tile_origin(tile.x), m.tile_origin(tile.y));
        ParamsExact {
            origin_cell_x: ox.cell,
            origin_cell_y: oy.cell,
            origin_frac_x: ox.frac,
            origin_frac_y: oy.frac,
            size,
            seed: p.seed,
            octaves: p.octaves,
            sharpness: p.sharpness,
            basis: basis_word(p.basis),
            pattern: pattern_word(p.pattern),
            step: exact::pixel_step(m.frequency, size) as Fx,
            warp: p.warp,
            contrast: p.contrast,
            pivot: p.pivot,
            recip: p.recip,
            recip2: p.recip2,
        }
    }

    /// The parameters for a material's tile.
    pub fn new(m: &Material, tile: TileId, size: u32) -> (r: Self)
        ensures
            r == ParamsExact::of(*m, tile, size),
    {
        let p: Prepared = Prepared::new(m);
        let ox: Lat = Lat::split(ieee::scale(tile.x, m.frequency));
        let oy: Lat = Lat::split(ieee::scale(tile.y, m.frequency));
        ParamsExact {
            origin_cell_x: ox.cell,
            origin_cell_y: oy.cell,
            origin_frac_x: ox.frac,
            origin_frac_y: oy.frac,
            size,
            seed: p.seed,
            octaves: p.octaves,
            sharpness: p.sharpness,
            basis: basis_code(p.basis),
            pattern: pattern_code(p.pattern),
            step: exact::step_between_pixels(m.frequency, size),
            warp: p.warp,
            contrast: p.contrast,
            pivot: p.pivot,
            recip: p.recip,
            recip2: p.recip2,
        }
    }

    /// The words of the block.
    pub open spec fn words(self) -> Seq<u32> {
        seq![
            self.origin_cell_x as u32,
            self.origin_cell_y as u32,
            self.origin_frac_x as u32,
            self.origin_frac_y as u32,
            self.size,
            self.seed,
            self.octaves,
            self.sharpness,
            self.basis,
            self.pattern,
            self.step as u32,
            self.warp as u32,
            self.contrast as u32,
            self.pivot as u32,
            self.recip as u32,
            self.recip2 as u32,
        ]
    }

    /// The fields that hold signed numbers, in order: where the word of
    /// field `k` stands, and the number.
    pub open spec fn signed_word(self, k: int) -> (int, int) {
        if k == 0 {
            (0, self.origin_cell_x as int)
        } else if k == 1 {
            (1, self.origin_cell_y as int)
        } else if k == 2 {
            (2, self.origin_frac_x as int)
        } else if k == 3 {
            (3, self.origin_frac_y as int)
        } else if k == 4 {
            (10, self.step as int)
        } else if k == 5 {
            (11, self.warp as int)
        } else if k == 6 {
            (12, self.contrast as int)
        } else if k == 7 {
            (13, self.pivot as int)
        } else if k == 8 {
            (14, self.recip as int)
        } else {
            (15, self.recip2 as int)
        }
    }

    /// The block as words, in the order they are uploaded in.
    pub fn to_words(&self) -> (r: [u32; 16])
        ensures
            r@ == self.words(),
    {
        let words: [u32; 16] = [
            #[verifier::truncate]
            (self.origin_cell_x as u32),
            #[verifier::truncate]
            (self.origin_cell_y as u32),
            #[verifier::truncate]
            (self.origin_frac_x as u32),
            #[verifier::truncate]
            (self.origin_frac_y as u32),
            self.size,
            self.seed,
            self.octaves,
            self.sharpness,
            self.basis,
            self.pattern,
            #[verifier::truncate]
            (self.step as u32),
            #[verifier::truncate]
            (self.warp as u32),
            #[verifier::truncate]
            (self.contrast as u32),
            #[verifier::truncate]
            (self.pivot as u32),
            #[verifier::truncate]
            (self.recip as u32),
            #[verifier::truncate]
            (self.recip2 as u32),
        ];
        assert(words@ =~= self.words());
        words
    }

    /// The block as it is uploaded: its words, in the machine's byte order.
    pub fn to_bytes(&self) -> (out: Vec<u8>)
        ensures
            in_memory(out@, self.words()),
    {
        words_in_memory(&self.to_words())
    }
}

/// How to run a pipeline over one tile.
#[derive(Debug, Clone, Copy, PartialEq, Eq, Structural)]
pub struct Dispatch {
    /// Bytes in the output buffer: four a pixel.
    pub bytes: u64,
    /// Workgroups along each side: eight pixels each, the last possibly
    /// reaching past the tile.
    pub groups: u32,
}

impl Dispatch {
    /// Plan the dispatch over a tile.
    pub fn new(size: u32) -> (r: Self)
        requires
            4 * (size * size) <= u64::MAX,
        ensures
            r.bytes == 4 * (size * size),
            8 * r.groups - 8 < size <= 8 * r.groups,
    {
        assert(0 <= size * size) by (nonlinear_arith);
        let area: u64 = size as u64 * size as u64;
        let groups: u32 = size / 8 + if size % 8 == 0 {
            0
        } else {
            1
        };
        Dispatch { bytes: area * 4, groups }
    }
}

/// Why the bytes that a device wrote could not be read as samples.
#[derive(Debug, Clone, Copy, PartialEq, Eq, Structural)]
pub enum Misread {
    /// They are not a whole number of samples.
    Length,
    /// They lie at an address where no sample can lie.
    Alignment,
}

/// The tile that a device wrote.
pub open spec fn written_tile(size: u32, words: Seq<u32>, t: Tile) -> bool {
    &&& t.size == size
    &&& t.data@ == words.map_values(|w: u32| F32 { bits: w })
}

/// A tile from the words that a device wrote.
pub fn tile_from_words(size: u32, words: &[u32]) -> (r: Tile)
    ensures
        written_tile(size, words@, r),
{
    let mut data: Vec<F32> = Vec::new();
    let mut i: usize = 0;
    while i < words.len()
        invariant
            i <= words@.len(),
            data@ == words@.subrange(0, i as int).map_values(|w: u32| F32 { bits: w }),
        decreases words@.len() - i,
    {
        data.push(F32 { bits: words[i] });
        i = i + 1;
        assert(data@ =~= words@.subrange(0, i as int).map_values(|w: u32| F32 { bits: w }));
    }
    assert(words@.subrange(0, i as int) =~= words@);
    Tile { size, data }
}

/// A tile from the bytes that a device wrote, in the machine's byte order.
pub fn tile_from_bytes(size: u32, bytes: &[u8]) -> (r: Result<Tile, Misread>)
    ensures
        r == Err::<Tile, Misread>(Misread::Length) <==> bytes@.len() % 4 != 0,
        r matches Ok(t) ==> exists|words: Seq<u32>|
            written_tile(size, words, t) && #[trigger] in_memory(bytes@, words),
{
    if bytes.len() % 4 != 0 {
        return Err(Misread::Length);
    }
    match words_from_memory(bytes) {
        Ok(words) => {
            let t: Tile = tile_from_words(size, words.as_slice());
            assert(in_memory(bytes@, words@));
            Ok(t)
        },
        Err(_) => Err(Misread::Alignment),
    }
}

/// Four bytes give their word back, in either order.
#[verifier::rlimit(40)]
proof fn lemma_word_of_bytes(word: u32)
    ensures
        word == byte_of(word, 0) + 0x100 * byte_of(word, 1) + 0x1_0000 * byte_of(word, 2)
            + 0x100_0000 * byte_of(word, 3),
{
}

/// No two sequences of words have the same bytes: what the device reads
/// tells the parameters apart.
pub proof fn lemma_bytes_injective(a: Seq<u32>, b: Seq<u32>)
    ensures
        little_endian(a) == little_endian(b) ==> a == b,
        big_endian(a) == big_endian(b) ==> a == b,
{
    if little_endian(a) == little_endian(b) || big_endian(a) == big_endian(b) {
        let big = big_endian(a) == big_endian(b);
        let (x, y) = if big {
            (big_endian(a), big_endian(b))
        } else {
            (little_endian(a), little_endian(b))
        };
        assert(x.len() == y.len());
        assert forall|i: int| 0 <= i < a.len() implies a[i] == b[i] by {
            assert(x[4 * i] == y[4 * i]);
            assert(x[4 * i + 1] == y[4 * i + 1]);
            assert(x[4 * i + 2] == y[4 * i + 2]);
            assert(x[4 * i + 3] == y[4 * i + 3]);
            lemma_word_of_bytes(a[i]);
            lemma_word_of_bytes(b[i]);
        }
        assert(a =~= b);
    }
}

/// The codes of the bases, and of the patterns, count up from zero in the
/// order that they are declared in.
pub proof fn lemma_codes(b: Basis, p: Pattern)
    ensures
        b is Value <==> basis_word(b) == 0,
        b is Gradient <==> basis_word(b) == 1,
        b is Worley <==> basis_word(b) == 2,
        p is Fractal <==> pattern_word(p) == 0,
        p is Ridged <==> pattern_word(p) == 1,
        p is Warped <==> pattern_word(p) == 2,
{
}

/// A signed word and its bits.
proof fn lemma_word_bits(a: i32, b: i32)
    ensures
        a as u32 == b as u32 ==> a == b,
        a >= 0 ==> a as u32 == a,
        a < 0 ==> a as u32 == a + 0x1_0000_0000,
{
    assert(a as u32 == b as u32 ==> a == b) by (bit_vector);
    assert((a >= 0 ==> a as u32 == a) && (a < 0 ==> a as u32 == a + 0x1_0000_0000)) by (bit_vector);
}

/// A block for the floating-point pipeline says everything it holds: no two
/// blocks are uploaded as the same words.
pub proof fn lemma_params_told_apart(a: Params, b: Params)
    requires
        a.words() == b.words(),
    ensures
        a == b,
{
    let (x, y) = (a.words(), b.words());
    lemma_word_bits(a.origin_cell_x, b.origin_cell_x);
    lemma_word_bits(a.origin_cell_y, b.origin_cell_y);
    assert(x[0] == y[0] && x[1] == y[1] && x[2] == y[2] && x[3] == y[3]);
    assert(x[4] == y[4] && x[5] == y[5] && x[6] == y[6] && x[7] == y[7]);
    assert(x[8] == y[8] && x[9] == y[9] && x[10] == y[10] && x[11] == y[11]);
    assert(x[12] == y[12] && x[13] == y[13]);
}

/// A block for the fixed-point pipeline says everything it holds: no two
/// blocks are uploaded as the same words.
pub proof fn lemma_exact_params_told_apart(a: ParamsExact, b: ParamsExact)
    requires
        a.words() == b.words(),
    ensures
        a == b,
{
    let (x, y) = (a.words(), b.words());
    lemma_word_bits(a.origin_cell_x, b.origin_cell_x);
    lemma_word_bits(a.origin_cell_y, b.origin_cell_y);
    lemma_word_bits(a.origin_frac_x, b.origin_frac_x);
    lemma_word_bits(a.origin_frac_y, b.origin_frac_y);
    lemma_word_bits(a.step, b.step);
    lemma_word_bits(a.warp, b.warp);
    lemma_word_bits(a.contrast, b.contrast);
    lemma_word_bits(a.pivot, b.pivot);
    lemma_word_bits(a.recip, b.recip);
    lemma_word_bits(a.recip2, b.recip2);
    assert(x[0] == y[0] && x[1] == y[1] && x[2] == y[2] && x[3] == y[3]);
    assert(x[4] == y[4] && x[5] == y[5] && x[6] == y[6] && x[7] == y[7]);
    assert(x[8] == y[8] && x[9] == y[9] && x[10] == y[10] && x[11] == y[11]);
    assert(x[12] == y[12] && x[13] == y[13] && x[14] == y[14] && x[15] == y[15]);
}

/// Both blocks have the same shape: sixteen words, in the same places the
/// origin, the size, the seed, the counts, the codes and the step.
pub proof fn lemma_blocks_agree(a: Params, b: ParamsExact)
    ensures
        a.words().len() == 16,
        b.words().len() == 16,
        ({
            let (x, y) = (a.words(), b.words());
            &&& a.origin_cell_x == b.origin_cell_x <==> x[0] == y[0]
            &&& a.origin_cell_y == b.origin_cell_y <==> x[1] == y[1]
            &&& x[2] == a.origin_frac_x.bits && x[3] == a.origin_frac_y.bits
            &&& x[4] == a.size && y[4] == b.size
            &&& x[5] == a.seed && y[5] == b.seed
            &&& x[6] == a.octaves && y[6] == b.octaves
            &&& x[7] == a.sharpness && y[7] == b.sharpness
            &&& x[8] == a.basis && y[8] == b.basis
            &&& x[9] == a.pattern && y[9] == b.pattern
            &&& x[10] == a.step.bits && x[11] == a.warp.bits
            &&& x[12] == a.contrast.bits && x[13] == a.pivot.bits
            &&& x[14] == 0 && x[15] == 0
        }),
        forall|k: int|
            0 <= k < 10 ==> (#[trigger] b.signed_word(k)).1 == b.words()[b.signed_word(k).0] as int
                - if b.signed_word(k).1 < 0 {
                0x1_0000_0000
            } else {
                0int
            },
{
    lemma_word_bits(a.origin_cell_x, b.origin_cell_x);
    lemma_word_bits(a.origin_cell_y, b.origin_cell_y);
    lemma_word_bits(b.origin_cell_x, b.origin_cell_y);
    lemma_word_bits(b.origin_cell_y, b.origin_frac_x);
    lemma_word_bits(b.origin_frac_x, b.origin_frac_y);
    lemma_word_bits(b.origin_frac_y, b.step);
    lemma_word_bits(b.step, b.warp);
    lemma_word_bits(b.warp, b.contrast);
    lemma_word_bits(b.contrast, b.pivot);
    lemma_word_bits(b.pivot, b.recip);
    lemma_word_bits(b.recip, b.recip2);
    lemma_word_bits(b.recip2, b.origin_cell_x);
}

/// A device that samples where its block says, with what its block says,
/// renders the host's tile: sample `i` lies a number of steps right of and
/// below the origin, and what is sampled is the prepared material.
pub proof fn lemma_block_renders(m: Material, tile: TileId, size: u32, p: Prepared, i: int)
    requires
        size > 0,
        ({
            let b = ParamsExact::of(m, tile, size);
            &&& basis_word(p.basis) == b.basis && pattern_word(p.pattern) == b.pattern
            &&& p.octaves == b.octaves && p.sharpness == b.sharpness && p.seed == b.seed
            &&& p.warp == b.warp && p.contrast == b.contrast && p.pivot == b.pivot
            &&& p.recip == b.recip && p.recip2 == b.recip2
        }),
    ensures
        ({
            let b = ParamsExact::of(m, tile, size);
            let (c, r) = (i % (b.size as int), i / (b.size as int));
            let x = b.origin_cell_x * ONE + b.origin_frac_x + c * b.step;
            let y = b.origin_cell_y * ONE + b.origin_frac_y + r * b.step;
            m.pixel(tile, size, i) == p.sampled(Lat::at(x), Lat::at(y))
        }),
{
    let b = ParamsExact::of(m, tile, size);
    assert(i32::MIN <= exact::pixel_step(m.frequency, size) <= i32::MAX);
    assert(p == exact::prepared(m));
}

/// A tile from a device's words holds one sample for each, with the bits of
/// the word.
pub proof fn lemma_written_bits(size: u32, words: Seq<u32>, t: Tile)
    requires
        written_tile(size, words, t),
    ensures
        t.size == size,
        t.data@.len() == words.len(),
        forall|i: int| 0 <= i < words.len() ==> (#[trigger] t.data@[i]).bits == words[i],
{
}

} // verus!
