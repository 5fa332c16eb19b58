use tilekiln::exact::{step_between_pixels, Lat, Prepared};
use tilekiln::gpu::{
    basis_code, device_name, pattern_code, tile_from_bytes, tile_from_words, Dispatch, Misread, Params,
    ParamsExact, Unavailable,
};
use tilekiln::ieee::{scale, F32};
use tilekiln::{Basis, Material, Pattern, TileId};

fn single(v: f32) -> F32 {
    F32 { bits: v.to_bits() }
}

fn native(words: &[u32]) -> Vec<u8> {
    words.iter().flat_map(|w| w.to_ne_bytes()).collect()
}

fn material() -> Material {
    Material {
        basis: Basis::Worley,
        pattern: Pattern::Warped,
        frequency: single(17.31),
        octaves: 6,
        sharpness: 3,
        warp: single(0.7),
        contrast: single(1.3),
        pivot: single(0.25),
        seed: 999,
    }
}

#[test]
fn unavailable_says_why() {
    let e = Unavailable("no adapter".to_string());
    assert_eq!(e.message(), "no usable compute device: no adapter");
    assert_eq!(Unavailable(String::new()).message(), "no usable compute device: ");
}

#[test]
fn devices_are_described() {
    assert_eq!(
        device_name("llvmpipe", "Vulkan", "Cpu"),
        "llvmpipe (Vulkan, Cpu)"
    );
}

#[test]
fn codes_of_bases_and_patterns() {
    let bases = [Basis::Value, Basis::Gradient, Basis::Worley].map(basis_code);
    let patterns = [Pattern::Fractal, Pattern::Ridged, Pattern::Warped].map(pattern_code);
    assert_eq!((bases, patterns), ([0, 1, 2], [0, 1, 2]));
}

#[test]
fn the_floating_point_block() {
    let m = material();
    let p = Params::new(&m, -5, 7, single(0.5), single(0.125), single(0.27), 64);
    let want = [
        -5i32 as u32,
        7,
        0.5f32.to_bits(),
        0.125f32.to_bits(),
        64,
        999,
        6,
        3,
        2,
        2,
        0.27f32.to_bits(),
        0.7f32.to_bits(),
        1.3f32.to_bits(),
        0.25f32.to_bits(),
        0,
        0,
    ];
    assert_eq!(p.to_words(), want);
    assert_eq!(p.to_bytes(), native(&want));
}

#[test]
fn the_fixed_point_block_is_what_the_host_renders_with() {
    let m = material();
    let tile = TileId::new(3, -7);
    let p = Prepared::new(&m);
    let ox = Lat::split(scale(3, m.frequency));
    let oy = Lat::split(scale(-7, m.frequency));
    let want = [
        ox.cell as u32,
        oy.cell as u32,
        ox.frac as u32,
        oy.frac as u32,
        64,
        999,
        6,
        3,
        2,
        2,
        step_between_pixels(m.frequency, 64) as u32,
        p.warp as u32,
        p.contrast as u32,
        p.pivot as u32,
        p.recip as u32,
        p.recip2 as u32,
    ];
    let block = ParamsExact::new(&m, tile, 64);
    assert_eq!(block.to_words(), want);
    assert_eq!(block.to_bytes(), native(&want));
}

#[test]
fn no_octaves_become_one_in_the_block() {
    let m = Material {
        octaves: 0,
        sharpness: 0,
        ..material()
    };
    let p = ParamsExact::new(&m, TileId::new(0, 0), 8);
    assert_eq!((p.octaves, p.sharpness), (1, 1));
    let p = Params::new(&m, 0, 0, single(0.0), single(0.0), single(1.0), 8);
    assert_eq!((p.octaves, p.sharpness), (0, 0));
}

#[test]
fn dispatches_cover_the_tile() {
    for (size, groups) in [(0u32, 0u32), (1, 1), (7, 1), (8, 1), (9, 2), (31, 4), (33, 5)] {
        let d = Dispatch::new(size);
        assert_eq!(d.groups, groups);
        assert_eq!(d.bytes, 4 * (size as u64) * (size as u64));
    }
    assert_eq!(Dispatch::new(1 << 30).bytes, 1 << 62);
}

#[test]
fn tiles_are_read_back() {
    let t = Material::default().render_exact(6);
    let words: Vec<u32> = t.data.iter().map(|v| v.bits).collect();
    assert_eq!(tile_from_words(6, &words), t);
    // Reading needs bytes at an aligned address: those of an array of words.
    let aligned = bytemuck::cast_slice::<u32, u8>(&words);
    assert_eq!(tile_from_bytes(6, aligned), Ok(t));
}

#[test]
fn bytes_that_are_no_samples_are_refused() {
    let words = [1u32, 2, 3];
    let bytes = bytemuck::cast_slice::<u32, u8>(&words);
    assert_eq!(tile_from_bytes(1, &bytes[..7]), Err(Misread::Length));
    assert_eq!(tile_from_bytes(1, &bytes[1..9]), Err(Misread::Alignment));
    let t = tile_from_bytes(1, &bytes[4..8]).unwrap();
    assert_eq!((t.size, t.data[0].bits, t.data.len()), (1, 2, 1));
}
