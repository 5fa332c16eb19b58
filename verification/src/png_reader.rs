//! A PNG reader, as a specification, and the proof that it gives back
//! what the writer was given.
//!
//! The reader knows the part of the format that the writer uses: one
//! image header, one data chunk of stored blocks, no filters, greyscale or
//! RGB, with or without an opacity. It checks everything that a reader of the full format checks on
//! such a file: the signature, the chunk lengths and CRCs, the zlib header,
//! the block lengths and their complements, and the Adler-32 checksum.

use vstd::prelude::*;

use crate::checksum;
use crate::png;

verus! {

/// The 32-bit number in network byte order at `at`.
pub open spec fn be32_at(s: Seq<u8>, at: int) -> int {
    s[at] * 0x100_0000 + s[at + 1] * 0x1_0000 + s[at + 2] * 0x100 + s[at + 3]
}

/// The 16-bit number, low byte first, at `at`.
pub open spec fn le16_at(s: Seq<u8>, at: int) -> int {
    s[at] + s[at + 1] * 0x100
}

/// Read one chunk: its kind, its data, and the bytes after it.
#[verifier::opaque]
pub open spec fn read_chunk(s: Seq<u8>) -> Option<(Seq<u8>, Seq<u8>, Seq<u8>)> {
    let len = be32_at(s, 0);
    if s.len() < 12 || s.len() < 12 + len {
        None
    } else if s.subrange(8 + len, 12 + len) != png::be32(
        png::crc(s.subrange(4, 8 + len)) as int,
    ) {
        None
    } else {
        Some((s.subrange(4, 8), s.subrange(8, 8 + len), s.subrange(12 + len, s.len() as int)))
    }
}

/// Read a sequence of stored DEFLATE blocks: what they hold, and the bytes
/// after them.
pub open spec fn inflate(s: Seq<u8>) -> Option<(Seq<u8>, Seq<u8>)>
    decreases s.len(),
{
    let len = le16_at(s, 1);
    if s.len() < 5 || s[0] / 2 % 4 != 0 || len + le16_at(s, 3) != 0xFFFF || s.len() < 5 + len {
        None
    } else {
        let data = s.subrange(5, 5 + len);
        let rest = s.subrange(5 + len, s.len() as int);
        if s[0] % 2 == 1 {
            Some((data, rest))
        } else {
            match inflate(rest) {
                Some((more, tail)) => Some((data + more, tail)),
                None => None,
            }
        }
    }
}

/// Read a zlib stream.
#[verifier::opaque]
pub open spec fn unzlib(s: Seq<u8>) -> Option<Seq<u8>> {
    if s.len() < 2 || s[0] % 16 != 8 || s[0] / 16 > 7 || (s[0] * 256 + s[1]) % 31 != 0 || s[1] / 32
        % 2 != 0 {
        None
    } else {
        match inflate(s.subrange(2, s.len() as int)) {
            Some((raw, tail)) => if tail == png::be32(png::adler(raw)) {
                Some(raw)
            } else {
                None
            },
            None => None,
        }
    }
}

/// Take the filter bytes out of `n` scanlines of `stride` bytes.
pub open spec fn unfilter(raw: Seq<u8>, stride: nat, n: nat) -> Option<Seq<u8>>
    decreases n,
{
    let cut = raw.len() - stride - 1;
    if n == 0 {
        if raw.len() == 0 {
            Some(Seq::empty())
        } else {
            None
        }
    } else if cut < 0 || raw[cut] != 0 {
        None
    } else {
        match unfilter(raw.subrange(0, cut), stride, (n - 1) as nat) {
            Some(above) => Some(above + raw.subrange(cut + 1, raw.len() as int)),
            None => None,
        }
    }
}

/// Bytes to a pixel, by colour type: grey, RGB, and each of them with an
/// opacity.
pub open spec fn channels_of(colour_type: u8) -> Option<nat> {
    if colour_type == 0 {
        Some(1)
    } else if colour_type == 2 {
        Some(3)
    } else if colour_type == 4 {
        Some(2)
    } else if colour_type == 6 {
        Some(4)
    } else {
        None
    }
}

/// Read an image header: width, height and colour type.
pub open spec fn read_header(h: Seq<u8>) -> Option<(int, int, u8)> {
    if h.len() != 13 || h[8] != 8 || h[10] != 0 || h[11] != 0 || h[12] != 0 {
        None
    } else {
        Some((be32_at(h, 0), be32_at(h, 4), h[9]))
    }
}

/// Read a PNG file: width, height, colour type and pixels.
pub open spec fn decode(s: Seq<u8>) -> Option<(int, int, u8, Seq<u8>)> {
    if s.len() < 8 || s.subrange(0, 8) != png::signature() {
        None
    } else {
        match read_chunk(s.subrange(8, s.len() as int)) {
            None => None,
            Some((kind1, head, rest1)) => match (read_header(head), read_chunk(rest1)) {
                (Some((width, height, colour_type)), Some((kind2, data, rest2))) => match (
                    unzlib(data),
                    read_chunk(rest2),
                    channels_of(colour_type),
                ) {
                    (Some(raw), Some((kind3, end, rest3)), Some(channels)) => match unfilter(
                        raw,
                        (width * channels) as nat,
                        height as nat,
                    ) {
                        Some(pixels) => if kind1 == png::ihdr() && kind2 == png::idat() && kind3
                            == png::iend() && end.len() == 0 && rest3.len() == 0 {
                            Some((width, height, colour_type, pixels))
                        } else {
                            None
                        },
                        None => None,
                    },
                    _ => None,
                },
                _ => None,
            },
        }
    }
}

/// Reading a number back from network byte order.
proof fn lemma_be32_at(s: Seq<u8>, at: int, n: int)
    requires
        0 <= n < 0x1_0000_0000,
        0 <= at,
        at + 4 <= s.len(),
        s.subrange(at, at + 4) == png::be32(n),
    ensures
        be32_at(s, at) == n,
{
    let t = png::be32(n);
    assert(s[at] == s.subrange(at, at + 4)[0]);
    assert(s[at + 1] == s.subrange(at, at + 4)[1]);
    assert(s[at + 2] == s.subrange(at, at + 4)[2]);
    assert(s[at + 3] == s.subrange(at, at + 4)[3]);
}

/// A chunk that was written reads back as itself.
#[verifier::rlimit(40)]
pub proof fn lemma_read_chunk(kind: Seq<u8>, data: Seq<u8>, rest: Seq<u8>)
    requires
        kind.len() == 4,
        data.len() < 0x1_0000_0000,
    ensures
        read_chunk(png::chunk_bytes(kind, data) + rest) == Some((kind, data, rest)),
{
    reveal(read_chunk);
    reveal(png::chunk_bytes);
    let s = png::chunk_bytes(kind, data) + rest;
    let len = data.len() as int;
    assert(s.subrange(0, 4) =~= png::be32(len));
    lemma_be32_at(s, 0, len);
    assert(s.subrange(4, 8 + len) =~= kind + data);
    assert(s.subrange(8 + len, 12 + len) =~= png::be32(png::crc(kind + data) as int));
    assert(s.subrange(4, 8) =~= kind);
    assert(s.subrange(8, 8 + len) =~= data);
    assert(s.subrange(12 + len, s.len() as int) =~= rest);
}

/// Stored blocks hold what was stored.
pub proof fn lemma_inflate(raw: Seq<u8>, tail: Seq<u8>)
    ensures
        inflate(png::stored_blocks(raw) + tail) == Some((raw, tail)),
    decreases raw.len(),
{
    let s = png::stored_blocks(raw) + tail;
    if raw.len() <= png::BLOCK {
        lemma_inflate_block(true, raw, tail);
    } else {
        let first = raw.subrange(0, png::BLOCK as int);
        let others = raw.subrange(png::BLOCK as int, raw.len() as int);
        lemma_inflate(others, tail);
        lemma_inflate_block(false, first, png::stored_blocks(others) + tail);
        assert(s =~= png::stored_block(false, first) + (png::stored_blocks(others) + tail));
        assert(raw =~= first + others);
    }
}

/// Reading past one stored block.
#[verifier::rlimit(40)]
proof fn lemma_inflate_block(last: bool, data: Seq<u8>, rest: Seq<u8>)
    requires
        data.len() <= png::BLOCK,
    ensures
        last ==> inflate(png::stored_block(last, data) + rest) == Some((data, rest)),
        !last ==> inflate(png::stored_block(last, data) + rest) == (match inflate(rest) {
            Some((more, tail)) => Some((data + more, tail)),
            None => None,
        }),
{
    let s = png::stored_block(last, data) + rest;
    let len = data.len() as int;
    assert(le16_at(s, 1) == len);
    assert(le16_at(s, 3) == 0xFFFF - len);
    assert(s.subrange(5, 5 + len) =~= data);
    assert(s.subrange(5 + len, s.len() as int) =~= rest);
}

/// A stream with a legal header, blocks that inflate and their checksum.
proof fn lemma_unzlib_parts(s: Seq<u8>, raw: Seq<u8>, tail: Seq<u8>)
    requires
        s.len() >= 2,
        s[0] == 0x78,
        s[1] == 0x01,
        inflate(s.subrange(2, s.len() as int)) == Some((raw, tail)),
        tail == png::be32(png::adler(raw)),
    ensures
        unzlib(s) == Some(raw),
{
    reveal(unzlib);
    let body = s.subrange(2, s.len() as int);
    assert(s[0] % 16 == 8 && s[0] / 16 == 7 && s[1] / 32 % 2 == 0);
    assert((s[0] * 256 + s[1]) % 31 == 0);
}

/// The zlib stream is legal and holds the raw bytes.
pub proof fn lemma_unzlib(raw: Seq<u8>)
    ensures
        unzlib(png::zlib_bytes(raw)) == Some(raw),
{
    let tail = png::be32(png::adler(raw));
    let stored = png::stored_blocks(raw) + tail;
    let s = png::zlib_bytes(raw);
    assert(s =~= seq![0x78u8, 0x01u8] + stored) by {
        reveal(png::zlib_bytes);
    }
    lemma_inflate(raw, tail);
    assert(s.subrange(2, s.len() as int) =~= stored);
    lemma_unzlib_parts(s, raw, tail);
}

/// Scanlines give the pixels back.
pub proof fn lemma_unfilter(pixels: Seq<u8>, stride: nat, n: nat)
    requires
        n * stride <= pixels.len(),
    ensures
        unfilter(png::scanlines(pixels, stride, n), stride, n) == Some(
            pixels.subrange(0, (n * stride) as int),
        ),
    decreases n,
{
    let raw = png::scanlines(pixels, stride, n);
    if n == 0 {
        assert(0 * stride == 0) by (nonlinear_arith);
        assert(pixels.subrange(0, 0) =~= Seq::empty());
    } else {
        let m = (n - 1) as nat;
        assert(n * stride == m * stride + stride && 0 <= m * stride) by (nonlinear_arith)
            requires
                n == m + 1,
        ;
        lemma_unfilter(pixels, stride, m);
        let above = png::scanlines(pixels, stride, m);
        let row = pixels.subrange((m * stride) as int, (n * stride) as int);
        assert(raw == above + seq![0u8] + row);
        let cut = raw.len() - stride - 1;
        assert(cut == above.len());
        assert(raw.subrange(0, cut) =~= above);
        assert(raw.subrange(cut + 1, raw.len() as int) =~= row);
        assert(pixels.subrange(0, (m * stride) as int) + row =~= pixels.subrange(
            0,
            (n * stride) as int,
        ));
    }
}

/// An image header reads back as it was written.
pub proof fn lemma_read_header(width: u32, height: u32, colour_type: u8)
    ensures
        read_header(png::header(width, height, colour_type)) == Some(
            (width as int, height as int, colour_type),
        ),
{
    let head = png::header(width, height, colour_type);
    assert(head.subrange(0, 4) =~= png::be32(width as int));
    assert(head.subrange(4, 8) =~= png::be32(height as int));
    lemma_be32_at(head, 0, width as int);
    lemma_be32_at(head, 4, height as int);
}

/// The three chunks of a file, in order and with nothing behind them.
proof fn lemma_read_chunks(head: Seq<u8>, data: Seq<u8>)
    requires
        head.len() < 0x1_0000_0000,
        data.len() < 0x1_0000_0000,
    ensures
        ({
            let c2 = png::chunk_bytes(png::idat(), data);
            let c3 = png::chunk_bytes(png::iend(), Seq::empty());
            let s = png::signature() + png::chunk_bytes(png::ihdr(), head) + c2 + c3;
            &&& s.len() >= 8
            &&& s.subrange(0, 8) == png::signature()
            &&& read_chunk(s.subrange(8, s.len() as int)) == Some((png::ihdr(), head, c2 + c3))
            &&& read_chunk(c2 + c3) == Some((png::idat(), data, c3))
            &&& read_chunk(c3) == Some((png::iend(), Seq::<u8>::empty(), Seq::<u8>::empty()))
        }),
{
    let c1 = png::chunk_bytes(png::ihdr(), head);
    let c2 = png::chunk_bytes(png::idat(), data);
    let c3 = png::chunk_bytes(png::iend(), Seq::empty());
    let s = png::signature() + c1 + c2 + c3;
    assert(s.subrange(0, 8) =~= png::signature());
    assert(s.subrange(8, s.len() as int) =~= c1 + (c2 + c3));
    lemma_read_chunk(png::ihdr(), head, c2 + c3);
    lemma_read_chunk(png::idat(), data, c3);
    lemma_read_chunk(png::iend(), Seq::empty(), Seq::empty());
    assert(c3 + Seq::<u8>::empty() =~= c3);
}

/// Every image reads back as it was written: the file is a valid PNG with
/// the given dimensions, colour type and pixels. The stream has to be short
/// enough for its length to fit the chunk's 32-bit field.
pub proof fn lemma_decode_undoes_encode(
    width: u32,
    height: u32,
    colour_type: u8,
    channels: nat,
    pixels: Seq<u8>,
)
    requires
        channels_of(colour_type) == Some(channels),
        pixels.len() == width * height * channels,
        png::zlib_bytes(
            png::scanlines(pixels, width as nat * channels, height as nat),
        ).len() < 0x1_0000_0000,
    ensures
        decode(png::png_bytes(width, height, colour_type, channels, pixels)) == Some(
            (width as int, height as int, colour_type, pixels),
        ),
{
    let stride = width as nat * channels;
    let raw = png::scanlines(pixels, stride, height as nat);
    lemma_read_chunks(png::header(width, height, colour_type), png::zlib_bytes(raw));
    lemma_read_header(width, height, colour_type);
    lemma_unzlib(raw);
    assert(height as nat * stride == pixels.len()) by (nonlinear_arith)
        requires
            pixels.len() == width * height * channels,
            stride == width * channels,
    ;
    lemma_unfilter(pixels, stride, height as nat);
    assert(pixels.subrange(0, pixels.len() as int) =~= pixels);
}

/// Whether an image's stream is short enough for its length to fit the
/// chunk's 32-bit field: a byte for each sample, one for each row, five for
/// each stored block and six around them.
pub open spec fn fits_a_chunk(width: u32, height: u32, channels: nat) -> bool {
    let n = height as nat * (width as nat * channels + 1);
    n + 5 * block_count(n) + 6 < 0x1_0000_0000
}

/// The same, with what is short enough said of the dimensions.
pub proof fn lemma_image_reads_back(
    width: u32,
    height: u32,
    colour_type: u8,
    channels: nat,
    pixels: Seq<u8>,
)
    requires
        channels_of(colour_type) == Some(channels),
        pixels.len() == width * height * channels,
        fits_a_chunk(width, height, channels),
    ensures
        decode(png::png_bytes(width, height, colour_type, channels, pixels)) == Some(
            (width as int, height as int, colour_type, pixels),
        ),
{
    let stride = width as nat * channels;
    let raw = png::scanlines(pixels, stride, height as nat);
    assert(height as nat * stride == pixels.len()) by (nonlinear_arith)
        requires
            pixels.len() == width * height * channels,
            stride == width * channels,
    ;
    lemma_scanlines_len(pixels, stride, height as nat);
    lemma_zlib_len(raw);
    lemma_decode_undoes_encode(width, height, colour_type, channels, pixels);
}

/// How many stored blocks hold `n` bytes: one for each 65535, and one when
/// there are none.
pub open spec fn block_count(n: nat) -> nat {
    if n == 0 {
        1
    } else {
        (n + 65534) / 65535
    }
}

/// A zlib stream costs five bytes a block and six more.
pub proof fn lemma_zlib_len(raw: Seq<u8>)
    ensures
        png::zlib_bytes(raw).len() == raw.len() + 5 * block_count(raw.len()) + 6,
{
    reveal(png::zlib_bytes);
    lemma_stored_len(raw);
}

proof fn lemma_stored_len(raw: Seq<u8>)
    ensures
        png::stored_blocks(raw).len() == raw.len() + 5 * block_count(raw.len()),
    decreases raw.len(),
{
    if raw.len() > png::BLOCK {
        lemma_stored_len(raw.subrange(png::BLOCK as int, raw.len() as int));
    }
}

/// A scanline costs one byte more than its samples.
pub proof fn lemma_scanlines_len(pixels: Seq<u8>, stride: nat, n: nat)
    requires
        n * stride <= pixels.len(),
    ensures
        png::scanlines(pixels, stride, n).len() == n * (stride + 1),
    decreases n,
{
    if n == 0 {
        assert(0 * (stride + 1) == 0) by (nonlinear_arith);
    } else {
        let m = (n - 1) as nat;
        assert(n * stride == m * stride + stride && n * (stride + 1) == m * (stride + 1) + stride
            + 1 && 0 <= m * stride) by (nonlinear_arith)
            requires
                n == m + 1,
        ;
        lemma_scanlines_len(pixels, stride, m);
    }
}

/// A greyscale buffer as RGB holds each sample three times over, and nothing
/// else.
pub proof fn lemma_tripled(grey_px: Seq<u8>, i: int, channel: int)
    requires
        0 <= i < grey_px.len(),
        0 <= channel < 3,
    ensures
        png::tripled(grey_px).len() == 3 * grey_px.len(),
        png::tripled(grey_px)[3 * i + channel] == grey_px[i],
{
    assert((3 * i + channel) / 3 == i);
}

/// The bytes of a file, by their place: what any reader of the format finds
/// before the image data. Eight bytes that no text file starts with, a chunk
/// of 13 bytes named IHDR with the width, the height, the depth of eight bits
/// and the colour type, and the length and the name of the data chunk.
pub proof fn lemma_file_starts(
    width: u32,
    height: u32,
    colour_type: u8,
    channels: nat,
    pixels: Seq<u8>,
)
    ensures
        ({
            let s = png::png_bytes(width, height, colour_type, channels, pixels);
            let data = png::zlib_bytes(
                png::scanlines(pixels, width as nat * channels, height as nat),
            );
            &&& s.len() == 57 + data.len() as int
            &&& s.subrange(0, 8) == seq![137u8, 80u8, 78u8, 71u8, 13u8, 10u8, 26u8, 10u8]
            &&& be32_at(s, 8) == 13
            &&& s.subrange(12, 16) == seq![73u8, 72u8, 68u8, 82u8]
            &&& be32_at(s, 16) == width
            &&& be32_at(s, 20) == height
            &&& s.subrange(24, 29) == seq![8u8, colour_type, 0u8, 0u8, 0u8]
            &&& data.len() < 0x1_0000_0000 ==> be32_at(s, 33) == data.len()
            &&& s.subrange(37, 41) == seq![73u8, 68u8, 65u8, 84u8]
            &&& s.subrange(41, 41 + data.len() as int) == data
            &&& s.subrange(45 + data.len() as int, 53 + data.len() as int) == seq![
                0u8,
                0u8,
                0u8,
                0u8,
                73u8,
                69u8,
                78u8,
                68u8,
            ]
        }),
{
    let s = png::png_bytes(width, height, colour_type, channels, pixels);
    let data = png::zlib_bytes(png::scanlines(pixels, width as nat * channels, height as nat));
    let n = data.len() as int;
    lemma_file_chunks(width, height, colour_type, channels, pixels);
    lemma_chunk_places(s, 8, png::ihdr(), png::header(width, height, colour_type));
    lemma_chunk_places(s, 33, png::idat(), data);
    lemma_chunk_places(s, 45 + n, png::iend(), Seq::empty());
    lemma_header_places(s, 16, width, height, colour_type);
    lemma_join(s, 45 + n, 49 + n, 53 + n);
    assert(png::be32(0) + png::iend() =~= seq![0u8, 0u8, 0u8, 0u8, 73u8, 69u8, 78u8, 68u8]);
}

/// Two neighbouring parts of a sequence make a larger one.
proof fn lemma_join(s: Seq<u8>, a: int, b: int, c: int)
    requires
        0 <= a <= b <= c <= s.len(),
    ensures
        s.subrange(a, c) == s.subrange(a, b) + s.subrange(b, c),
{
    assert(s.subrange(a, c) =~= s.subrange(a, b) + s.subrange(b, c));
}

/// Four sequences in a row.
proof fn lemma_parts(a: Seq<u8>, b: Seq<u8>, c: Seq<u8>, d: Seq<u8>)
    ensures
        ({
            let s = a + b + c + d;
            let (i, j, k) = (a.len() as int, (a + b).len() as int, (a + b + c).len() as int);
            &&& s.subrange(0, i) == a
            &&& s.subrange(i, j) == b
            &&& s.subrange(j, k) == c
            &&& s.subrange(k, s.len() as int) == d
        }),
{
    let s = a + b + c + d;
    let (i, j, k) = (a.len() as int, (a + b).len() as int, (a + b + c).len() as int);
    assert(s.subrange(0, i) =~= a);
    assert(s.subrange(i, j) =~= b);
    assert(s.subrange(j, k) =~= c);
    assert(s.subrange(k, s.len() as int) =~= d);
}

/// A chunk is twelve bytes longer than its data.
proof fn lemma_chunk_len(kind: Seq<u8>, data: Seq<u8>)
    requires
        kind.len() == 4,
    ensures
        png::chunk_bytes(kind, data).len() == 12 + data.len(),
{
    reveal(png::chunk_bytes);
}

/// The signature and the three chunks of a file.
proof fn lemma_file_chunks(
    width: u32,
    height: u32,
    colour_type: u8,
    channels: nat,
    pixels: Seq<u8>,
)
    ensures
        ({
            let s = png::png_bytes(width, height, colour_type, channels, pixels);
            let head = png::header(width, height, colour_type);
            let data = png::zlib_bytes(
                png::scanlines(pixels, width as nat * channels, height as nat),
            );
            let n = data.len() as int;
            &&& head.len() == 13
            &&& s.len() == 57 + n
            &&& s.subrange(0, 8) == png::signature()
            &&& s.subrange(8, 33) == png::chunk_bytes(png::ihdr(), head)
            &&& s.subrange(33, 45 + n) == png::chunk_bytes(png::idat(), data)
            &&& s.subrange(45 + n, 57 + n) == png::chunk_bytes(png::iend(), Seq::empty())
        }),
{
    let head = png::header(width, height, colour_type);
    let data = png::zlib_bytes(png::scanlines(pixels, width as nat * channels, height as nat));
    let c1 = png::chunk_bytes(png::ihdr(), head);
    let c2 = png::chunk_bytes(png::idat(), data);
    let c3 = png::chunk_bytes(png::iend(), Seq::empty());
    lemma_chunk_len(png::ihdr(), head);
    lemma_chunk_len(png::idat(), data);
    lemma_chunk_len(png::iend(), Seq::empty());
    lemma_parts(png::signature(), c1, c2, c3);
}

/// Where the parts of a header stand in a file.
proof fn lemma_header_places(s: Seq<u8>, at: int, width: u32, height: u32, colour_type: u8)
    requires
        0 <= at,
        at + 13 <= s.len(),
        s.subrange(at, at + 13) == png::header(width, height, colour_type),
    ensures
        be32_at(s, at) == width,
        be32_at(s, at + 4) == height,
        s.subrange(at + 8, at + 13) == seq![8u8, colour_type, 0u8, 0u8, 0u8],
{
    let head = png::header(width, height, colour_type);
    assert(s.subrange(at, at + 4) =~= head.subrange(0, 4));
    assert(head.subrange(0, 4) =~= png::be32(width as int));
    assert(s.subrange(at + 4, at + 8) =~= head.subrange(4, 8));
    assert(head.subrange(4, 8) =~= png::be32(height as int));
    lemma_be32_at(s, at, width as int);
    lemma_be32_at(s, at + 4, height as int);
    assert(s.subrange(at + 8, at + 13) =~= head.subrange(8, 13));
    assert(head.subrange(8, 13) =~= seq![8u8, colour_type, 0u8, 0u8, 0u8]);
}

/// Where the parts of a chunk stand in a file.
proof fn lemma_chunk_places(s: Seq<u8>, at: int, kind: Seq<u8>, data: Seq<u8>)
    requires
        kind.len() == 4,
        0 <= at,
        at + 12 + data.len() <= s.len(),
        s.subrange(at, at + 12 + data.len() as int) == png::chunk_bytes(kind, data),
    ensures
        s.subrange(at, at + 4) == png::be32(data.len() as int % 0x1_0000_0000),
        data.len() < 0x1_0000_0000 ==> be32_at(s, at) == data.len(),
        s.subrange(at + 4, at + 8) == kind,
        s.subrange(at + 8, at + 8 + data.len() as int) == data,
        be32_at(s, at + 8 + data.len() as int) == png::crc(kind + data),
{
    reveal(png::chunk_bytes);
    let n = data.len() as int;
    let c = png::chunk_bytes(kind, data);
    let w = s.subrange(at, at + 12 + n);
    assert(s.subrange(at, at + 4) =~= w.subrange(0, 4));
    assert(c.subrange(0, 4) =~= png::be32(n % 0x1_0000_0000));
    lemma_be32_at(s, at, n % 0x1_0000_0000);
    assert(s.subrange(at + 4, at + 8) =~= w.subrange(4, 8));
    assert(c.subrange(4, 8) =~= kind);
    assert(s.subrange(at + 8, at + 8 + n) =~= w.subrange(8, 8 + n));
    assert(c.subrange(8, 8 + n) =~= data);
    assert(s.subrange(at + 8 + n, at + 12 + n) =~= w.subrange(8 + n, 12 + n));
    assert(c.subrange(8 + n, 12 + n) =~= png::be32(png::crc(kind + data) as int));
    lemma_be32_at(s, at + 8 + n, png::crc(kind + data) as int);
}

/// Every chunk of a file is checked: the four bytes behind its data are the
/// inverted remainder of its name and all of its data.
pub proof fn lemma_chunks_carry_remainders(
    width: u32,
    height: u32,
    colour_type: u8,
    channels: nat,
    pixels: Seq<u8>,
)
    ensures
        ({
            let s = png::png_bytes(width, height, colour_type, channels, pixels);
            let n = s.len() as int;
            &&& checksum::has_remainder(s.subrange(12, 29), be32_at(s, 29) as u32)
            &&& checksum::has_remainder(s.subrange(37, n - 16), be32_at(s, n - 16) as u32)
            &&& checksum::has_remainder(s.subrange(n - 8, n - 4), be32_at(s, n - 4) as u32)
        }),
{
    let s = png::png_bytes(width, height, colour_type, channels, pixels);
    let data = png::zlib_bytes(png::scanlines(pixels, width as nat * channels, height as nat));
    let n = data.len() as int;
    lemma_file_chunks(width, height, colour_type, channels, pixels);
    lemma_chunk_checked(s, 8, png::ihdr(), png::header(width, height, colour_type));
    lemma_chunk_checked(s, 33, png::idat(), data);
    lemma_chunk_checked(s, 45 + n, png::iend(), Seq::empty());
}

/// A chunk in a file carries the remainder of its name and its data.
proof fn lemma_chunk_checked(s: Seq<u8>, at: int, kind: Seq<u8>, data: Seq<u8>)
    requires
        kind.len() == 4,
        0 <= at,
        at + 12 + data.len() <= s.len(),
        s.subrange(at, at + 12 + data.len()) == png::chunk_bytes(kind, data),
    ensures
        checksum::has_remainder(
            s.subrange(at + 4, at + 8 + data.len()),
            be32_at(s, at + 8 + data.len()) as u32,
        ),
{
    lemma_chunk_places(s, at, kind, data);
    lemma_join(s, at + 4, at + 8, at + 8 + data.len());
    checksum::lemma_crc_is_remainder(kind + data);
}

/// Where the samples of an image stand among the scanlines: each row behind a
/// filter byte of zero, and in order.
pub proof fn lemma_scanline_places(pixels: Seq<u8>, stride: nat, n: nat, y: int, x: int)
    requires
        n * stride <= pixels.len(),
        0 <= y < n,
        0 <= x < stride,
    ensures
        png::scanlines(pixels, stride, n)[y * (stride + 1)] == 0,
        png::scanlines(pixels, stride, n)[y * (stride + 1) + 1 + x] == pixels[y * stride + x],
        0 <= y * stride + x < pixels.len(),
    decreases n,
{
    let m = (n - 1) as nat;
    assert(n * stride == m * stride + stride && 0 <= m * stride) by (nonlinear_arith)
        requires
            n == m + 1,
    ;
    lemma_scanlines_len(pixels, stride, m);
    assert(0 <= y * (stride + 1) && 0 <= y * stride && y * stride + stride <= n * stride)
        by (nonlinear_arith)
        requires
            0 <= y < n,
    ;
    let above = png::scanlines(pixels, stride, m);
    let row = pixels.subrange((m * stride) as int, (n * stride) as int);
    assert(png::scanlines(pixels, stride, n) == above + seq![0u8] + row);
    if y == m {
        assert(row[x] == pixels[y * stride + x]);
    } else {
        lemma_scanline_places(pixels, stride, m, y, x);
        assert(y * (stride + 1) + 1 + x < m * (stride + 1)) by (nonlinear_arith)
            requires
                0 <= y < m,
                0 <= x < stride,
        ;
    }
}

/// Where the bytes that a zlib stream holds stand in it: behind two bytes of
/// header, in order, with five bytes before each 65535 of them.
pub proof fn lemma_zlib_places(raw: Seq<u8>, i: int)
    requires
        0 <= i < raw.len(),
    ensures
        png::zlib_bytes(raw)[2 + 5 * (i / 65535 + 1) + i] == raw[i],
        png::zlib_bytes(raw)[0] == 0x78,
        png::zlib_bytes(raw)[1] == 0x01,
        be32_at(png::zlib_bytes(raw), png::zlib_bytes(raw).len() - 4) == png::adler(raw),
{
    reveal(png::zlib_bytes);
    let s = png::zlib_bytes(raw);
    lemma_stored_places(raw, i);
    lemma_stored_len(raw);
    let (n, blocks) = (s.len() as int, png::stored_blocks(raw));
    assert(s[2 + 5 * (i / 65535 + 1) + i] == blocks[5 * (i / 65535 + 1) + i]);
    assert(s.subrange(n - 4, n) =~= png::be32(png::adler(raw)));
    checksum::lemma_adler_runs(raw, 0);
    lemma_be32_at(s, n - 4, png::adler(raw));
}

proof fn lemma_stored_places(raw: Seq<u8>, i: int)
    requires
        0 <= i < raw.len(),
    ensures
        0 <= 5 * (i / 65535 + 1) + i < png::stored_blocks(raw).len(),
        png::stored_blocks(raw)[5 * (i / 65535 + 1) + i] == raw[i],
    decreases raw.len(),
{
    if raw.len() <= png::BLOCK {
        assert(i / 65535 == 0);
    } else {
        let first = raw.subrange(0, png::BLOCK as int);
        let others = raw.subrange(png::BLOCK as int, raw.len() as int);
        let head = png::stored_block(false, first);
        assert(head.len() == 65540);
        if i < 65535 {
            assert(i / 65535 == 0);
            assert(head[5 + i] == first[i]);
        } else {
            lemma_stored_places(others, i - 65535);
            assert((i - 65535) / 65535 == i / 65535 - 1);
        }
    }
}

} // verus!
