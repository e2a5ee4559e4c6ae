use mosaic::average::average_color;
use mosaic::color::{byte_of_color, color_of_byte, Color, Color8, SCALE};
use mosaic::distance::color_distance;
use mosaic::mosaic::{blit, composite, composite_cells, grid_dims};
use mosaic::palette::{Entry, Palette};
use mosaic::raster::Image;
use mosaic::tiles::build_palette;

fn c8(r: u8, g: u8, b: u8, a: u8) -> Color8 {
    Color8 { r, g, b, a }
}

fn entry(tile: &[u8], color: Color) -> Entry {
    Entry { tile: tile.to_vec(), color }
}

#[test]
fn byte_color_round_trip() {
    for v in [0u8, 1, 17, 127, 128, 200, 255] {
        let c = color_of_byte(c8(v, v, v, v));
        assert!(c.r <= SCALE);
        assert_eq!(byte_of_color(c), c8(v, v, v, v));
    }
}

#[test]
fn average_uniform_is_exact() {
    let img = Image::new_filled(3, 2, c8(10, 20, 30, 40));
    let avg = average_color(&img);
    assert_eq!(avg, color_of_byte(c8(10, 20, 30, 40)));
}

#[test]
fn average_two_halves_is_midpoint() {
    let mut img = Image::new_filled(2, 2, c8(0, 0, 0, 0));
    img.set_pixel(0, 0, c8(255, 255, 255, 255));
    img.set_pixel(1, 0, c8(255, 255, 255, 255));
    let avg = average_color(&img);
    assert_eq!(avg, Color { r: 32640, g: 32640, b: 32640, a: 32640 });
}

#[test]
fn self_distance_is_alpha_term_only() {
    let c = color_of_byte(c8(0, 0, 0, 0));
    assert_eq!(color_distance(&c, &c, 0, 64), 261120);
    let d = color_of_byte(c8(200, 13, 77, 255));
    assert_eq!(color_distance(&d, &d, 0, 64), 261120);
}

#[test]
fn distance_ignores_q_when_qfactor_zero() {
    let c = color_of_byte(c8(5, 5, 5, 5));
    assert_eq!(color_distance(&c, &c, 500, 0), 261120);
}

#[test]
fn distance_adds_quantization_signal() {
    let c = color_of_byte(c8(9, 9, 9, 9));
    assert_eq!(color_distance(&c, &c, 64, 64), 261121);
    assert_eq!(color_distance(&c, &c, 128, 64), 261122);
}

#[test]
fn single_entry_palette_always_matches() {
    let p = Palette::from(vec![entry(b"only", color_of_byte(c8(1, 2, 3, 4)))]);
    for q in [c8(0, 0, 0, 0), c8(255, 255, 255, 255), c8(90, 14, 200, 7)] {
        let (tile, color) = p.nearest_color(&color_of_byte(q));
        assert_eq!(tile, b"only".to_vec());
        assert_eq!(color, color_of_byte(c8(1, 2, 3, 4)));
        assert_eq!(p.index_of(&q), 0);
    }
}

#[test]
fn two_entry_palette_picks_closer_color() {
    let black = color_of_byte(c8(0, 0, 0, 0));
    let white = color_of_byte(c8(255, 255, 255, 0));
    let p = Palette::from(vec![entry(b"black", black), entry(b"white", white)]);
    let (tile, _) = p.nearest_color(&color_of_byte(c8(40, 40, 40, 0)));
    assert_eq!(tile, b"black".to_vec());
    let (tile, _) = p.nearest_color(&color_of_byte(c8(220, 220, 220, 0)));
    assert_eq!(tile, b"white".to_vec());
}

#[test]
fn exact_tie_resolves_to_first_entry() {
    // Two gray entries symmetric around the gray query: for equal red and
    // blue deltas the red-mean weights cancel, so the distances are exactly
    // equal and the first-listed entry must win.
    let low = color_of_byte(c8(100, 100, 100, 0));
    let high = color_of_byte(c8(160, 160, 160, 0));
    let q = c8(130, 130, 130, 0);
    let p = Palette::from(vec![entry(b"low", low), entry(b"high", high)]);
    assert_eq!(p.index_of(&q), 0);
    let p2 = Palette::from(vec![entry(b"high", high), entry(b"low", low)]);
    assert_eq!(p2.index_of(&q), 0);
}

#[test]
fn map_color_replaces_with_representative() {
    let p = Palette::from(vec![
        entry(b"a", color_of_byte(c8(10, 10, 10, 255))),
        entry(b"b", color_of_byte(c8(240, 240, 240, 255))),
    ]);
    let mut px = c8(20, 20, 20, 255);
    p.map_color(&mut px);
    assert_eq!(px, c8(10, 10, 10, 255));
}

#[test]
fn grid_dims_uses_integer_division() {
    assert_eq!(grid_dims(5, 7, 2, 3), (2, 2));
    assert_eq!(grid_dims(4, 4, 1, 1), (4, 4));
    assert_eq!(grid_dims(1, 1, 2, 2), (0, 0));
}

#[test]
fn composite_fills_each_cell_with_matching_tile() {
    // A 2x2 source whose pixels exactly match the four palette colors, with
    // 1x1 tiles: each output cell must hold the tile of its own pixel.
    let colors = [
        c8(255, 0, 0, 255),
        c8(0, 255, 0, 255),
        c8(0, 0, 255, 255),
        c8(255, 255, 255, 255),
    ];
    let markers = [
        c8(11, 0, 0, 255),
        c8(0, 22, 0, 255),
        c8(0, 0, 33, 255),
        c8(44, 44, 44, 255),
    ];
    let entries: Vec<Entry> = colors
        .iter()
        .enumerate()
        .map(|(i, c)| entry(&[i as u8], color_of_byte(*c)))
        .collect();
    let palette = Palette::from(entries);
    let tiles: Vec<Image> = markers.iter().map(|m| Image::new_filled(1, 1, *m)).collect();
    let mut grid = Image::new_filled(2, 2, colors[0]);
    grid.set_pixel(1, 0, colors[1]);
    grid.set_pixel(0, 1, colors[2]);
    grid.set_pixel(1, 1, colors[3]);
    let out = composite_cells(&grid, &palette, &tiles, 1, 1);
    assert_eq!(out.width, 2);
    assert_eq!(out.height, 2);
    assert_eq!(out.get_pixel(0, 0), markers[0]);
    assert_eq!(out.get_pixel(1, 0), markers[1]);
    assert_eq!(out.get_pixel(0, 1), markers[2]);
    assert_eq!(out.get_pixel(1, 1), markers[3]);
}

#[test]
fn composite_with_larger_tiles_places_blocks() {
    let color_a = c8(0, 0, 0, 255);
    let color_b = c8(255, 255, 255, 255);
    let palette = Palette::from(vec![
        entry(b"a", color_of_byte(color_a)),
        entry(b"b", color_of_byte(color_b)),
    ]);
    let tiles = vec![
        Image::new_filled(2, 2, c8(1, 1, 1, 255)),
        Image::new_filled(2, 2, c8(2, 2, 2, 255)),
    ];
    let mut grid = Image::new_filled(2, 1, color_a);
    grid.set_pixel(1, 0, color_b);
    let out = composite_cells(&grid, &palette, &tiles, 2, 2);
    assert_eq!(out.width, 4);
    assert_eq!(out.height, 2);
    for j in 0..2 {
        for i in 0..2 {
            assert_eq!(out.get_pixel(i, j), c8(1, 1, 1, 255));
            assert_eq!(out.get_pixel(i + 2, j), c8(2, 2, 2, 255));
        }
    }
}

#[test]
fn composite_with_dither_on_solid_matching_source() {
    // The grid is one solid color that the palette holds exactly: the
    // dither pass must not change anything, so the output equals the plain
    // composition.
    let solid = c8(10, 20, 30, 40);
    let palette = Palette::from(vec![
        entry(b"solid", color_of_byte(solid)),
        entry(b"other", color_of_byte(c8(250, 250, 250, 250))),
    ]);
    let tiles = vec![
        Image::new_filled(1, 1, c8(1, 1, 1, 255)),
        Image::new_filled(1, 1, c8(2, 2, 2, 255)),
    ];
    let grid = Image::new_filled(3, 3, solid);
    let plain = composite(grid.clone(), &palette, &tiles, 1, 1, false);
    let dithered = composite(grid, &palette, &tiles, 1, 1, true);
    assert_eq!(plain.pixels, dithered.pixels);
    for j in 0..3 {
        for i in 0..3 {
            assert_eq!(dithered.get_pixel(i, j), c8(1, 1, 1, 255));
        }
    }
}

#[test]
fn build_palette_rejects_undecodable_tile() {
    let candidates = vec![(b"bad".to_vec(), vec![1u8, 2, 3, 4, 5])];
    match build_palette(&candidates) {
        Err(e) => assert_eq!(e.tile, b"bad".to_vec()),
        Ok(_) => panic!("garbage bytes must not decode"),
    }
}

#[test]
fn nearest_match_scans_whole_palette() {
    let p = Palette::from(vec![
        entry(b"a", color_of_byte(c8(0, 0, 0, 255))),
        entry(b"b", color_of_byte(c8(120, 120, 120, 255))),
        entry(b"c", color_of_byte(c8(255, 255, 255, 255))),
    ]);
    assert_eq!(p.index_of(&c8(5, 5, 5, 255)), 0);
    assert_eq!(p.index_of(&c8(118, 122, 119, 255)), 1);
    assert_eq!(p.index_of(&c8(250, 250, 250, 255)), 2);
}

#[test]
fn blit_overwrites_only_target_rectangle() {
    let mut canvas = Image::new_filled(3, 2, c8(9, 9, 9, 9));
    let tile = Image::new_filled(1, 2, c8(1, 2, 3, 4));
    blit(&mut canvas, &tile, 1, 0);
    for y in 0..2 {
        for x in 0..3 {
            let expect = if x == 1 { c8(1, 2, 3, 4) } else { c8(9, 9, 9, 9) };
            assert_eq!(canvas.get_pixel(x, y), expect);
        }
    }
}
