//! Minimal PNG writer, no dependencies.
//!
//! DEFLATE is used in *stored* mode: every block is uncompressed. That
//! is a legal zlib stream, needs no compressor, and costs five bytes for
//! each block of up to 65535, and six for the stream.
//!
//! [`crate::png_reader`] states a reader as a specification and shows that
//! it gives back what the writer was given.

use vstd::arithmetic::div_mod::*;
use vstd::arithmetic::power2::*;
use vstd::prelude::*;

use crate::ieee;
use crate::ieee::F32;
use crate::png_reader;

verus! {

/// The reflected CRC-32 polynomial.
pub const CRC_POLY: u32 = 0xEDB8_8320;

/// The modulus of both Adler-32 sums: the largest prime below 2^16.
pub const ADLER_MOD: u32 = 65521;

/// The most bytes a stored block can hold.
pub const BLOCK: usize = 65535;

/// A 32-bit number in network byte order.
pub open spec fn be32(n: int) -> Seq<u8> {
    seq![
        (n / 0x100_0000 % 256) as u8,
        (n / 0x1_0000 % 256) as u8,
        (n / 0x100 % 256) as u8,
        (n % 256) as u8,
    ]
}

/// A 16-bit number, low byte first.
pub open spec fn le16(n: int) -> Seq<u8> {
    seq![(n % 256) as u8, (n / 256 % 256) as u8]
}

/// One step of the CRC shift register.
pub open spec fn crc_step(c: u32) -> u32 {
    if c % 2 == 1 {
        (c >> 1) ^ CRC_POLY
    } else {
        c >> 1
    }
}

/// `n` steps of the CRC shift register.
pub open spec fn crc_steps(c: u32, n: nat) -> u32
    decreases n,
{
    if n == 0 {
        c
    } else {
        crc_step(crc_steps(c, (n - 1) as nat))
    }
}

/// The CRC shift register after reading `s`.
pub open spec fn crc_register(s: Seq<u8>) -> u32
    decreases s.len(),
{
    if s.len() == 0 {
        0xFFFF_FFFF
    } else {
        crc_steps(crc_register(s.drop_last()) ^ (s.last() as u32), 8)
    }
}

/// The CRC-32 of `s`.
pub open spec fn crc(s: Seq<u8>) -> u32 {
    !crc_register(s)
}

/// CRC-32 of a byte string, as PNG chunks carry it.
pub fn crc32(bytes: &[u8]) -> (r: u32)
    ensures
        r == crc(bytes@),
{
    let mut c: u32 = 0xFFFF_FFFF;
    let mut i: usize = 0;
    while i < bytes.len()
        invariant
            i <= bytes@.len(),
            c == crc_register(bytes@.subrange(0, i as int)),
        decreases bytes@.len() - i,
    {
        c = c ^ (bytes[i] as u32);
        let ghost start = c;
        let mut k: u32 = 0;
        while k < 8
            invariant
                k <= 8,
                c == crc_steps(start, k as nat),
            decreases 8 - k,
        {
            let mask: u32 = 0u32.wrapping_sub(c & 1);
            proof {
                lemma_crc_mask(c);
            }
            c = (c >> 1) ^ (CRC_POLY & mask);
            k = k + 1;
        }
        assert(bytes@.subrange(0, i + 1).drop_last() =~= bytes@.subrange(0, i as int));
        i = i + 1;
    }
    assert(bytes@.subrange(0, i as int) =~= bytes@);
    !c
}

/// Masking the polynomial by the low bit is the same as testing it.
proof fn lemma_crc_mask(c: u32)
    ensures
        (c >> 1) ^ (CRC_POLY & 0u32.wrapping_sub(c & 1)) == crc_step(c),
{
    assert(c & 1 == c % 2) by (bit_vector);
    assert(0xEDB8_8320u32 & 0xFFFF_FFFFu32 == 0xEDB8_8320u32) by (bit_vector);
    assert(0xEDB8_8320u32 & 0u32 == 0u32) by (bit_vector);
    assert((c >> 1) ^ 0 == c >> 1) by (bit_vector);
}

/// The sum of the bytes of `s`.
pub open spec fn byte_sum(s: Seq<u8>) -> nat
    decreases s.len(),
{
    if s.len() == 0 {
        0
    } else {
        byte_sum(s.drop_last()) + s.last() as nat
    }
}

/// The sum, over the non-empty prefixes of `s`, of one plus the prefix's
/// byte sum.
pub open spec fn prefix_sum(s: Seq<u8>) -> nat
    decreases s.len(),
{
    if s.len() == 0 {
        0
    } else {
        prefix_sum(s.drop_last()) + 1 + byte_sum(s)
    }
}

/// The Adler-32 checksum of `s`.
pub open spec fn adler(s: Seq<u8>) -> int {
    (prefix_sum(s) as int % ADLER_MOD as int) * 0x1_0000 + (1 + byte_sum(s)) as int
        % ADLER_MOD as int
}

/// Adler-32 of a byte string, as a zlib stream carries it.
pub fn adler32(bytes: &[u8]) -> (r: u32)
    ensures
        r == adler(bytes@),
{
    let mut a: u32 = 1;
    let mut b: u32 = 0;
    let mut i: usize = 0;
    while i < bytes.len()
        invariant
            i <= bytes@.len(),
            a == (1 + byte_sum(bytes@.subrange(0, i as int))) as int % ADLER_MOD as int,
            b == prefix_sum(bytes@.subrange(0, i as int)) as int % ADLER_MOD as int,
        decreases bytes@.len() - i,
    {
        let ghost read = bytes@.subrange(0, i as int);
        proof {
            assert(bytes@.subrange(0, i + 1).drop_last() =~= read);
            lemma_adler_step(prefix_sum(read) as int, byte_sum(read) as int, bytes@[i as int] as int);
        }
        a = (a + bytes[i] as u32) % ADLER_MOD;
        b = (b + a) % ADLER_MOD;
        i = i + 1;
    }
    assert(bytes@.subrange(0, i as int) =~= bytes@);
    assert((b << 16u32) | a == b * 0x1_0000 + a) by (bit_vector)
        requires
            a < 65521,
            b < 65521,
    ;
    (b << 16u32) | a
}

/// Reducing both sums after each byte reduces the totals.
proof fn lemma_adler_step(prefixes: int, bytes: int, byte: int)
    ensures
        ((1 + bytes) % 65521 + byte) % 65521 == (1 + bytes + byte) % 65521,
        (prefixes % 65521 + (1 + bytes + byte) % 65521) % 65521 == (prefixes + 1 + bytes + byte)
            % 65521,
{
}

/// Append a byte string.
fn append(out: &mut Vec<u8>, bytes: &[u8])
    ensures
        final(out)@ == old(out)@ + bytes@,
{
    out.extend_from_slice(bytes);
    assert(out@ =~= old(out)@ + bytes@);
}

/// Append a 32-bit number in network byte order.
fn append_be32(out: &mut Vec<u8>, n: u32)
    ensures
        final(out)@ == old(out)@ + be32(n as int),
{
    out.push((n / 0x100_0000) as u8);
    out.push((n / 0x1_0000 % 256) as u8);
    out.push((n / 0x100 % 256) as u8);
    out.push((n % 256) as u8);
    assert(out@ =~= old(out)@ + be32(n as int));
}

/// Append a 16-bit number, low byte first.
fn append_le16(out: &mut Vec<u8>, n: u16)
    ensures
        final(out)@ == old(out)@ + le16(n as int),
{
    out.push((n % 256) as u8);
    out.push((n / 256) as u8);
    assert(out@ =~= old(out)@ + le16(n as int));
}

/// The bytes of a chunk: length, kind, data and the CRC of the last two.
#[verifier::opaque]
pub open spec fn chunk_bytes(kind: Seq<u8>, data: Seq<u8>) -> Seq<u8> {
    be32(data.len() as int % 0x1_0000_0000) + kind + data + be32(crc(kind + data) as int)
}

/// Append one chunk.
pub fn chunk(out: &mut Vec<u8>, kind: &[u8; 4], data: &[u8])
    ensures
        final(out)@ == old(out)@ + chunk_bytes(kind@, data@),
{
    let len: u32 = (data.len() as u64 % 0x1_0000_0000) as u32;
    append_be32(out, len);
    append(out, kind);
    append(out, data);
    let mut crc_input: Vec<u8> = Vec::new();
    append(&mut crc_input, kind);
    append(&mut crc_input, data);
    assert(crc_input@ =~= kind@ + data@);
    append_be32(out, crc32(&crc_input));
    reveal(chunk_bytes);
    assert(out@ =~= old(out)@ + chunk_bytes(kind@, data@));
}

/// One stored DEFLATE block: the final flag, the length, its complement
/// and the bytes.
pub open spec fn stored_block(last: bool, data: Seq<u8>) -> Seq<u8> {
    seq![
        if last {
            1u8
        } else {
            0u8
        },
    ] + le16(data.len() as int) + le16(0xFFFF - data.len()) + data
}

/// Stored DEFLATE blocks that hold `raw`: full ones, then the last.
pub open spec fn stored_blocks(raw: Seq<u8>) -> Seq<u8>
    decreases raw.len(),
{
    if raw.len() <= BLOCK {
        stored_block(true, raw)
    } else {
        stored_block(false, raw.subrange(0, BLOCK as int)) + stored_blocks(
            raw.subrange(BLOCK as int, raw.len() as int),
        )
    }
}

/// A zlib stream of stored blocks that holds `raw`.
#[verifier::opaque]
pub open spec fn zlib_bytes(raw: Seq<u8>) -> Seq<u8> {
    seq![0x78u8, 0x01u8] + stored_blocks(raw) + be32(adler(raw))
}

/// Wrap raw bytes in a zlib stream of stored DEFLATE blocks.
pub fn zlib_stored(raw: &[u8]) -> (out: Vec<u8>)
    ensures
        out@ == zlib_bytes(raw@),
{
    let mut out: Vec<u8> = Vec::new();
    // CMF/FLG for deflate, 32 KiB window, no preset dictionary.
    out.push(0x78);
    out.push(0x01);
    let ghost head = out@;
    assert(head =~= seq![0x78u8, 0x01u8]);
    let mut start: usize = 0;
    assert(raw@.subrange(0, raw@.len() as int) =~= raw@);
    assert(head + stored_blocks(raw@) =~= out@ + stored_blocks(raw@));
    while raw.len() - start > BLOCK
        invariant
            start <= raw@.len(),
            head + stored_blocks(raw@) == out@ + stored_blocks(
                raw@.subrange(start as int, raw@.len() as int),
            ),
        decreases raw@.len() - start,
    {
        let ghost rest = raw@.subrange(start as int, raw@.len() as int);
        let ghost before = out@;
        let end: usize = start + BLOCK;
        append_block(&mut out, false, &raw[start..end]);
        assert(raw@.subrange(start as int, end as int) =~= rest.subrange(0, BLOCK as int));
        assert(raw@.subrange(end as int, raw@.len() as int) =~= rest.subrange(
            BLOCK as int,
            rest.len() as int,
        ));
        assert(before + stored_blocks(rest) =~= out@ + stored_blocks(
            raw@.subrange(end as int, raw@.len() as int),
        ));
        start = end;
    }
    append_block(&mut out, true, &raw[start..raw.len()]);
    append_be32(&mut out, adler32(raw));
    reveal(zlib_bytes);
    assert(out@ =~= zlib_bytes(raw@));
    out
}

/// Append one stored block.
fn append_block(out: &mut Vec<u8>, last: bool, data: &[u8])
    requires
        data@.len() <= BLOCK,
    ensures
        final(out)@ == old(out)@ + stored_block(last, data@),
{
    let len: u16 = data.len() as u16;
    out.push(
        if last {
            1
        } else {
            0
        },
    );
    append_le16(out, len);
    append_le16(out, 0xFFFF - len);
    append(out, data);
    assert(out@ =~= old(out)@ + stored_block(last, data@));
}

/// The first `n` scanlines of an image, each behind a filter byte of 0.
pub open spec fn scanlines(pixels: Seq<u8>, stride: nat, n: nat) -> Seq<u8>
    decreases n,
{
    if n == 0 {
        Seq::empty()
    } else {
        scanlines(pixels, stride, (n - 1) as nat) + seq![0u8] + pixels.subrange(
            (n - 1) * stride,
            (n * stride) as int,
        )
    }
}

/// The eight bytes that open every PNG file.
pub open spec fn signature() -> Seq<u8> {
    seq![0x89u8, 0x50u8, 0x4Eu8, 0x47u8, 0x0Du8, 0x0Au8, 0x1Au8, 0x0Au8]
}

/// The chunk kinds that the writer uses.
pub open spec fn ihdr() -> Seq<u8> {
    seq![0x49u8, 0x48u8, 0x44u8, 0x52u8]
}

/// See [`ihdr`].
pub open spec fn idat() -> Seq<u8> {
    seq![0x49u8, 0x44u8, 0x41u8, 0x54u8]
}

/// See [`ihdr`].
pub open spec fn iend() -> Seq<u8> {
    seq![0x49u8, 0x45u8, 0x4Eu8, 0x44u8]
}

/// The image header: dimensions, eight bits a sample, the colour type, and
/// the only compression, filter and interlace methods in use.
pub open spec fn header(width: u32, height: u32, colour_type: u8) -> Seq<u8> {
    be32(width as int) + be32(height as int) + seq![8u8, colour_type, 0u8, 0u8, 0u8]
}

/// The bytes of a PNG file.
pub open spec fn png_bytes(
    width: u32,
    height: u32,
    colour_type: u8,
    channels: nat,
    pixels: Seq<u8>,
) -> Seq<u8> {
    signature() + chunk_bytes(ihdr(), header(width, height, colour_type)) + chunk_bytes(
        idat(),
        zlib_bytes(scanlines(pixels, width as nat * channels, height as nat)),
    ) + chunk_bytes(iend(), Seq::empty())
}

/// Encode an image of 8-bit samples, `channels` to a pixel.
pub fn encode(width: u32, height: u32, colour_type: u8, channels: usize, pixels: &[u8]) -> (out:
    Vec<u8>)
    requires
        pixels@.len() == width * height * channels,
    ensures
        out@ == png_bytes(width, height, colour_type, channels as nat, pixels@),
        png_reader::channels_of(colour_type) == Some(channels as nat) && png_reader::fits_a_chunk(
            width,
            height,
            channels as nat,
        ) ==> png_reader::decode(out@) == Some(
            (width as int, height as int, colour_type, pixels@),
        ),
{
    proof {
        if png_reader::channels_of(colour_type) == Some(channels as nat)
            && png_reader::fits_a_chunk(width, height, channels as nat) {
            png_reader::lemma_image_reads_back(
                width,
                height,
                colour_type,
                channels as nat,
                pixels@,
            );
        }
    }
    let ghost stride: nat = width as nat * channels as nat;
    assert(pixels@.len() == height * stride) by (nonlinear_arith)
        requires
            pixels@.len() == width * height * channels,
            stride == width * channels,
    ;
    let total: usize = pixels.len();
    // Each scanline is prefixed with a filter byte; 0 means "none".
    let mut raw: Vec<u8> = Vec::new();
    let mut y: u32 = 0;
    let mut at: usize = 0;
    while y < height
        invariant
            y <= height,
            at == y * stride,
            stride == width * channels,
            pixels@.len() == total == height * stride,
            raw@ == scanlines(pixels@, stride, y as nat),
        decreases height - y,
    {
        assert((y + 1) * stride == y * stride + stride && (y + 1) * stride <= height * stride)
            by (nonlinear_arith)
            requires
                y < height,
        ;
        assert(y * stride >= 0) by (nonlinear_arith);
        let end: usize = at + width as usize * channels;
        raw.push(0);
        append(&mut raw, &pixels[at..end]);
        assert(raw@ =~= scanlines(pixels@, stride, (y + 1) as nat));
        at = end;
        y = y + 1;
    }

    let mut out: Vec<u8> = Vec::new();
    append(&mut out, &[0x89, 0x50, 0x4E, 0x47, 0x0D, 0x0A, 0x1A, 0x0A]);
    assert(out@ =~= signature());

    let mut head: Vec<u8> = Vec::new();
    append_be32(&mut head, width);
    append_be32(&mut head, height);
    append(&mut head, &[8, colour_type, 0, 0, 0]);
    assert(head@ =~= header(width, height, colour_type));
    let kind: [u8; 4] = [0x49, 0x48, 0x44, 0x52];
    assert(kind@ =~= ihdr());
    chunk(&mut out, &kind, &head);
    let kind: [u8; 4] = [0x49, 0x44, 0x41, 0x54];
    assert(kind@ =~= idat());
    chunk(&mut out, &kind, &zlib_stored(&raw));
    let kind: [u8; 4] = [0x49, 0x45, 0x4E, 0x44];
    assert(kind@ =~= iend());
    let empty: [u8; 0] = [];
    assert(empty@ =~= Seq::empty());
    chunk(&mut out, &kind, &empty);
    out
}

/// Encode an 8-bit greyscale image.
pub fn grey(width: u32, height: u32, pixels: &[u8]) -> (out: Vec<u8>)
    requires
        pixels@.len() == width * height,
    ensures
        out@ == png_bytes(width, height, 0, 1, pixels@),
        png_reader::fits_a_chunk(width, height, 1) ==> png_reader::decode(out@) == Some(
            (width as int, height as int, 0u8, pixels@),
        ),
{
    encode(width, height, 0, 1, pixels)
}

/// Encode an 8-bit RGB image.
pub fn rgb(width: u32, height: u32, pixels: &[u8]) -> (out: Vec<u8>)
    requires
        pixels@.len() == width * height * 3,
    ensures
        out@ == png_bytes(width, height, 2, 3, pixels@),
        png_reader::fits_a_chunk(width, height, 3) ==> png_reader::decode(out@) == Some(
            (width as int, height as int, 2u8, pixels@),
        ),
{
    encode(width, height, 2, 3, pixels)
}

/// Each sample of a greyscale buffer three times over.
pub open spec fn tripled(grey_px: Seq<u8>) -> Seq<u8> {
    Seq::new(3 * grey_px.len(), |i: int| grey_px[i / 3])
}

/// Encode a greyscale buffer as RGB, for viewers that handle colour PNGs
/// more consistently than greyscale ones.
pub fn rgb_from_grey(width: u32, height: u32, grey_px: &[u8]) -> (out: Vec<u8>)
    requires
        grey_px@.len() == width * height,
    ensures
        out@ == png_bytes(width, height, 2, 3, tripled(grey_px@)),
        png_reader::fits_a_chunk(width, height, 3) ==> (png_reader::decode(out@) matches Some(
            (w, h, colour_type, px),
        ) && w == width && h == height && colour_type == 2 && px.len() == 3 * grey_px@.len()
            && forall|k: int| 0 <= k < px.len() ==> #[trigger] px[k] == grey_px@[k / 3]),
{
    let mut px: Vec<u8> = Vec::new();
    let mut i: usize = 0;
    while i < grey_px.len()
        invariant
            i <= grey_px@.len(),
            px@ == tripled(grey_px@.subrange(0, i as int)),
        decreases grey_px@.len() - i,
    {
        let g: u8 = grey_px[i];
        append(&mut px, &[g, g, g]);
        i = i + 1;
        assert(px@ =~= tripled(grey_px@.subrange(0, i as int)));
    }
    assert(grey_px@.subrange(0, i as int) =~= grey_px@);
    rgb(width, height, &px)
}

/// The byte for a sample: the sample clamped to `[0, 1]`, times 255, plus one
/// half, each of the two results rounded to 24 digits, and then truncated.
/// What is not a number gives 0.
pub open spec fn quantised(v: F32) -> int {
    if v.nan() || v.neg() {
        0
    } else if v.bits >= 0x3f80_0000 {
        255
    } else {
        let n = 255 * v.sig();
        let scaled = ieee::significand(n, 24);
        let e = ieee::bit_length(n) + v.exp() - 24;
        let raised = scaled + pow2((-1 - e) as nat);
        let sum = ieee::significand(raised, 24);
        let whole = ieee::floor_scaled(sum, ieee::bit_length(raised) + e - 24);
        if whole > 255 {
            255
        } else {
            whole as int
        }
    }
}

/// Quantise a `[0, 1]` sample to a byte, clamping out-of-range input.
pub fn quantise(v: F32) -> (r: u8)
    ensures
        r == quantised(v),
{
    match v.unpack() {
        None => 0,
        Some((neg, sig, exp)) => {
            if neg {
                0
            } else if v.bits >= 0x3f80_0000 {
                255
            } else if exp < -33 {
                proof {
                    lemma_quantise_tiny(v);
                }
                0
            } else {
                let n: u128 = 255 * sig as u128;
                proof {
                    lemma2_to64();
                    ieee::lemma_bit_length_unique(
                        n as nat,
                        if n < 0x8000_0000 {
                            31
                        } else {
                            32
                        },
                    );
                }
                let scaled: u128 = ieee::round_significand(n, 24);
                let e: i32 = ieee::digits(n) as i32 + exp - 24;
                let half: u128 = ieee::power((-1 - e) as u32);
                proof {
                    if -1 - e < 25 {
                        lemma_pow2_strictly_increases((-1 - e) as nat, 25);
                    }
                }
                let raised: u128 = scaled + half;
                proof {
                    ieee::lemma_bit_length_below(raised as nat, 26);
                    ieee::lemma_bit_length(raised as nat);
                }
                let sum: u128 = ieee::round_significand(raised, 24);
                let last: i32 = ieee::digits(raised) as i32 + e - 24;
                let unit: u128 = ieee::power((-last) as u32);
                proof {
                    lemma_pow2_pos((-last) as nat);
                }
                let whole: u128 = sum / unit;
                if whole > 255 {
                    255
                } else {
                    whole as u8
                }
            }
        },
    }
}

/// A sample below 2^-9 is black: the half that is added decides.
pub proof fn lemma_quantise_tiny(v: F32)
    requires
        !v.nan(),
        !v.neg(),
        v.bits < 0x3f80_0000,
        v.exp() < -33,
    ensures
        quantised(v) == 0,
{
    lemma2_to64();
    let n = 255 * v.sig();
    ieee::lemma_bit_length_below(n, 32);
    let scaled = ieee::significand(n, 24);
    let e = ieee::bit_length(n) + v.exp() - 24;
    if n > 0 {
        ieee::lemma_significand(n, 24);
    } else {
        assert(0 * pow2(24) == 0) by (nonlinear_arith);
    }
    let top = (-1 - e) as nat;
    let half = pow2(top);
    if top > 25 {
        lemma_pow2_strictly_increases(25, top);
    }
    let raised = scaled + half;
    lemma_pow2_unfold((top + 1) as nat);
    ieee::lemma_bit_length_unique(raised, (top + 1) as nat);
    let k = (top + 1 - 24) as nat;
    lemma_pow2_pos(k);
    ieee::lemma_nearest_even(raised, pow2(k));
    lemma_pow2_adds(k, 22);
    // raised <= 3 * 2^(top - 1) = 3 * 2^22 * 2^k
    lemma_pow2_unfold(top);
    assert(raised <= pow2(k) * 0xc0_0000) by (nonlinear_arith)
        requires
            2 * raised <= 3 * half,
            half == 2 * pow2((top - 1) as nat),
            pow2((top - 1) as nat) == pow2(k) * 0x40_0000,
    ;
    lemma_div_is_ordered(raised as int, (pow2(k) * 0xc0_0000) as int, pow2(k) as int);
    lemma_div_multiples_vanish(0xc0_0000, pow2(k) as int);
    assert(ieee::significand(raised, 24) < 0x100_0000);
    lemma_basic_div(ieee::significand(raised, 24) as int, 0x100_0000);
}

} // verus!
