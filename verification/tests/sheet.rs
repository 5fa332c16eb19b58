use tilekiln::ieee::F32;
use tilekiln::png::quantise;
use tilekiln::sheet::sheet;
use tilekiln::{Material, Tile, TileId};

fn render(x: i64, y: i64, size: u32) -> Tile {
    Material::default()
        .try_render_tile_exact(TileId::new(x, y), size)
        .expect("fits the format")
}

fn flat(size: u32, v: f32) -> Tile {
    Tile {
        size,
        data: vec![F32 { bits: v.to_bits() }; (size * size) as usize],
    }
}

#[test]
fn a_strip_has_white_between_its_tiles() {
    let (w, h, px) = sheet(&[flat(2, 0.0), flat(2, 0.2), flat(2, 0.4)], 3, 1);
    assert_eq!((w, h), (8, 2));
    let row = [0u8, 0, 255, 51, 51, 255, 102, 102];
    assert_eq!(px, [row, row].concat());
}

#[test]
fn a_block_shows_its_tiles_row_by_row() {
    let tiles = [render(0, 0, 9), render(1, 0, 9), render(0, 1, 9), render(1, 1, 9)];
    let (w, h, px) = sheet(&tiles, 2, 0);
    assert_eq!((w, h, px.len()), (18, 18, 324));
    for y in 0..18u32 {
        for x in 0..18u32 {
            let t = &tiles[(y / 9 * 2 + x / 9) as usize];
            assert_eq!(px[(y * 18 + x) as usize], quantise(t.get(x % 9, y % 9)));
        }
    }
}

#[test]
fn gaps_run_both_ways() {
    let (w, h, px) = sheet(&[flat(1, 0.0), flat(1, 0.0)], 1, 3);
    assert_eq!((w, h), (1, 5));
    assert_eq!(px, [0, 255, 255, 255, 0]);
    // A gap after a single tile is not drawn, however wide it would be.
    let (w, h, px) = sheet(&[flat(2, 1.0)], 1, u32::MAX);
    assert_eq!((w, h, px), (2, 2, vec![255; 4]));
    // Nothing to draw.
    let (w, h, px) = sheet(&[flat(0, 0.0)], 1, 0);
    assert_eq!((w, h, px.len()), (0, 0, 0));
}
