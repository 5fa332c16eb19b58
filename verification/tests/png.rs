use tilekiln::ieee::F32;
use tilekiln::png::{adler32, chunk, crc32, encode, grey, quantise, rgb, rgb_from_grey, zlib_stored};

#[test]
fn crc_matches_the_known_value() {
    assert_eq!(crc32(b"IEND"), 0xAE42_6082);
}

#[test]
fn crc_of_nothing_and_of_the_check_string() {
    assert_eq!(crc32(b""), 0);
    assert_eq!(crc32(b"123456789"), 0xCBF4_3926);
}

#[test]
fn adler_matches_the_known_value() {
    assert_eq!(adler32(b"Wikipedia"), 0x11E6_0398);
}

#[test]
fn adler_wraps_its_sums() {
    assert_eq!(adler32(b""), 1);
    let bytes = vec![255u8; 100_000];
    let (mut a, mut b) = (1u64, 0u64);
    for &x in &bytes {
        a += x as u64;
        b += a;
    }
    assert_eq!(adler32(&bytes) as u64, (b % 65521) * 65536 + a % 65521);
}

#[test]
fn output_has_the_right_shape() {
    let px = vec![128u8; 4 * 4];
    let png = grey(4, 4, &px);
    assert_eq!(&png[..8], &[0x89, b'P', b'N', b'G', 0x0D, 0x0A, 0x1A, 0x0A]);
    let find = |needle: &[u8]| png.windows(4).position(|w| w == needle);
    let (a, b, c) = (find(b"IHDR"), find(b"IDAT"), find(b"IEND"));
    assert!(a < b && b < c, "chunks out of order: {a:?} {b:?} {c:?}");
    assert_eq!(&png[png.len() - 4..], &0xAE42_6082u32.to_be_bytes());
}

#[test]
fn multi_block_images_stay_valid() {
    let px = vec![7u8; 300 * 300];
    let png = grey(300, 300, &px);
    assert!(png.len() > 65_535);
    assert_eq!(&png[png.len() - 4..], &0xAE42_6082u32.to_be_bytes());
}

/// Read a stored zlib stream back.
fn unstore(stream: &[u8]) -> Vec<u8> {
    assert_eq!(&stream[..2], &[0x78, 0x01]);
    let mut at = 2;
    let mut raw = Vec::new();
    loop {
        let last = stream[at] == 1;
        let len = u16::from_le_bytes([stream[at + 1], stream[at + 2]]);
        let not = u16::from_le_bytes([stream[at + 3], stream[at + 4]]);
        assert_eq!(len, !not);
        at += 5;
        raw.extend_from_slice(&stream[at..at + len as usize]);
        at += len as usize;
        if last {
            break;
        }
    }
    assert_eq!(&stream[at..], &adler32(&raw).to_be_bytes());
    raw
}

#[test]
fn stored_streams_read_back() {
    for n in [0usize, 1, 65534, 65535, 65536, 131070, 131071, 200_000] {
        let raw: Vec<u8> = (0..n).map(|i| (i * 31 % 251) as u8).collect();
        let stream = zlib_stored(&raw);
        assert_eq!(unstore(&stream), raw);
        let blocks = if n == 0 { 1 } else { n.div_ceil(65535) };
        assert_eq!(stream.len(), n + 5 * blocks + 6);
    }
}

#[test]
fn images_read_back() {
    let px: Vec<u8> = (0..5 * 3 * 3).map(|i| i as u8).collect();
    let file = rgb(5, 3, &px);
    assert_eq!(&file[8..16], &[0, 0, 0, 13, b'I', b'H', b'D', b'R']);
    assert_eq!(&file[16..29], &[0, 0, 0, 5, 0, 0, 0, 3, 8, 2, 0, 0, 0]);
    let len = u32::from_be_bytes([file[33], file[34], file[35], file[36]]) as usize;
    assert_eq!(&file[37..41], b"IDAT");
    assert_eq!(
        &file[41 + len..45 + len],
        &crc32(&file[37..41 + len]).to_be_bytes()
    );
    let raw = unstore(&file[41..41 + len]);
    let mut back = Vec::new();
    for row in raw.chunks(16) {
        assert_eq!(row[0], 0);
        back.extend_from_slice(&row[1..]);
    }
    assert_eq!(back, px);
    assert_eq!(file.len(), 45 + len + 12);
}

#[test]
fn one_pixel_is_these_bytes() {
    let file = grey(1, 1, &[200]);
    let mut want = vec![0x89, 0x50, 0x4E, 0x47, 0x0D, 0x0A, 0x1A, 0x0A];
    chunk(&mut want, b"IHDR", &[0, 0, 0, 1, 0, 0, 0, 1, 8, 0, 0, 0, 0]);
    chunk(
        &mut want,
        b"IDAT",
        &[0x78, 0x01, 1, 2, 0, 0xfd, 0xff, 0, 200, 0, 202, 0, 201],
    );
    chunk(&mut want, b"IEND", &[]);
    // Adler-32 of [0, 200]: a = 201, b = 1 + 201.
    assert_eq!(file, want);
}

#[test]
fn an_empty_image_still_encodes() {
    let file = grey(0, 0, &[]);
    assert_eq!(file.len(), 8 + 25 + 12 + 11 + 12);
    let tall = encode(0, 3, 0, 1, &[]);
    assert_eq!(tall.len(), 8 + 25 + 12 + 14 + 12);
}

#[test]
fn grey_as_rgb_repeats_each_sample() {
    let px = [1u8, 2, 3, 250];
    assert_eq!(
        rgb_from_grey(2, 2, &px),
        rgb(2, 2, &[1, 1, 1, 2, 2, 2, 3, 3, 3, 250, 250, 250])
    );
}

#[test]
fn quantise_pins_its_endpoints() {
    let single = |v: f32| F32 { bits: v.to_bits() };
    assert_eq!(quantise(single(0.0)), 0);
    assert_eq!(quantise(single(1.0)), 255);
    assert_eq!(quantise(single(-5.0)), 0);
    assert_eq!(quantise(single(5.0)), 255);
}

#[test]
fn quantise_agrees_with_the_hardware() {
    let check = |v: f32| {
        let want = (v.clamp(0.0, 1.0) * 255.0 + 0.5) as u8;
        assert_eq!(quantise(F32 { bits: v.to_bits() }), want, "{v}");
    };
    for v in [f32::NAN, f32::INFINITY, f32::NEG_INFINITY, -0.0, 1e-45, 1e-38, 1e-10, 0.5] {
        check(v);
    }
    let mut x = 1u32;
    for _ in 0..200_000 {
        x = x.wrapping_mul(1_664_525).wrapping_add(1_013_904_223);
        check(f32::from_bits(x));
        check((x >> 8) as f32 / 16_777_216.0);
    }
    // Both sides of every boundary between two bytes.
    for k in 0..255 {
        let edge = (k as f32 + 0.5) / 255.0;
        for d in -40i32..=40 {
            check(f32::from_bits((edge.to_bits() as i32 + d) as u32));
        }
    }
}
