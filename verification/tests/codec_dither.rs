use mosaic::color::{byte_of_color, color_of_byte, Color8};
use mosaic::dither::dither;
use mosaic::palette::{Entry, Palette};
use mosaic::raster::Image;
use mosaic::tiles::{build_palette, prepare_grid, prepare_tiles};

fn c8(r: u8, g: u8, b: u8, a: u8) -> Color8 {
    Color8 { r, g, b, a }
}

fn entry(tile: &[u8], byte_color: Color8) -> Entry {
    Entry { tile: tile.to_vec(), color: color_of_byte(byte_color) }
}

fn png_bytes(w: u32, h: u32, px: [u8; 4]) -> Vec<u8> {
    let img = image::RgbaImage::from_pixel(w, h, image::Rgba(px));
    let mut buf = std::io::Cursor::new(Vec::new());
    img.write_to(&mut buf, image::ImageFormat::Png).unwrap();
    buf.into_inner()
}

#[test]
fn palette_codec_round_trip_preserves_matching() {
    let p = Palette::from(vec![
        entry(b"tiles/red.png", c8(200, 10, 10, 255)),
        entry(b"tiles/green.png", c8(10, 200, 10, 255)),
        entry(b"", c8(10, 10, 200, 255)),
    ]);
    let bytes = p.encode();
    let q = Palette::decode(&bytes).expect("own encoding must decode");
    assert_eq!(q.encode(), bytes);
    for probe in [
        c8(255, 0, 0, 255),
        c8(0, 255, 0, 255),
        c8(0, 0, 255, 255),
        c8(120, 120, 120, 0),
    ] {
        let qc = color_of_byte(probe);
        let (t1, c1) = p.nearest_color(&qc);
        let (t2, c2) = q.nearest_color(&qc);
        assert_eq!(t1, t2);
        assert_eq!(c1, c2);
        assert_eq!(p.index_of(&probe), q.index_of(&probe));
    }
}

#[test]
fn decode_rejects_bad_framing() {
    assert!(Palette::decode(&vec![]).is_none());
    assert!(Palette::decode(&vec![0, 0, 0, 0]).is_none());
    let p = Palette::from(vec![entry(b"x", c8(1, 2, 3, 4))]);
    let mut bytes = p.encode();
    bytes.pop();
    assert!(Palette::decode(&bytes).is_none());
    let mut longer = p.encode();
    longer.push(0);
    assert!(Palette::decode(&longer).is_none());
}

#[test]
fn decode_rejects_out_of_range_channel() {
    let p = Palette::from(vec![entry(b"x", c8(1, 2, 3, 4))]);
    let mut bytes = p.encode();
    // The red channel of the single entry sits after the count, the id
    // length and the one-byte id; overwrite it with a value above SCALE.
    let off = 4 + 4 + 1;
    bytes[off] = 0xFF;
    bytes[off + 1] = 0xFF;
    bytes[off + 2] = 0xFF;
    bytes[off + 3] = 0xFF;
    assert!(Palette::decode(&bytes).is_none());
}

#[test]
fn dither_keeps_exactly_matching_solid_image() {
    let solid = c8(10, 20, 30, 40);
    let p = Palette::from(vec![entry(b"solid", solid), entry(b"far", c8(250, 250, 250, 250))]);
    let mut img = Image::new_filled(4, 3, solid);
    let before = img.pixels.clone();
    dither(&mut img, &p);
    assert_eq!(img.pixels, before);
}

#[test]
fn dither_output_holds_only_palette_colors() {
    let p = Palette::from(vec![entry(b"dark", c8(0, 0, 0, 255)), entry(b"light", c8(255, 255, 255, 255))]);
    let mut img = Image::new_filled(4, 4, c8(0, 0, 0, 255));
    for y in 0..4u32 {
        for x in 0..4u32 {
            let v = (60 * (y * 4 + x) / 15) as u8;
            img.set_pixel(x, y, c8(v, v, v, 255));
        }
    }
    dither(&mut img, &p);
    let allowed = [
        byte_of_color(color_of_byte(c8(0, 0, 0, 255))),
        byte_of_color(color_of_byte(c8(255, 255, 255, 255))),
    ];
    for px in &img.pixels {
        assert!(allowed.contains(px));
    }
}

#[test]
fn build_palette_averages_decoded_tiles() {
    let candidates = vec![
        (b"red".to_vec(), png_bytes(2, 2, [200, 0, 0, 255])),
        (b"blue".to_vec(), png_bytes(3, 1, [0, 0, 200, 255])),
    ];
    let p = build_palette(&candidates).expect("valid PNG tiles");
    assert_eq!(p.items.len(), 2);
    assert_eq!(p.items[0].tile, b"red".to_vec());
    assert_eq!(p.items[0].color, color_of_byte(c8(200, 0, 0, 255)));
    assert_eq!(p.items[1].tile, b"blue".to_vec());
    assert_eq!(p.items[1].color, color_of_byte(c8(0, 0, 200, 255)));
}

#[test]
fn build_palette_reports_first_bad_tile() {
    let candidates = vec![
        (b"good".to_vec(), png_bytes(1, 1, [1, 2, 3, 4])),
        (b"broken".to_vec(), b"not an image".to_vec()),
        (b"later".to_vec(), b"also not an image".to_vec()),
    ];
    match build_palette(&candidates) {
        Err(e) => assert_eq!(e.tile, b"broken".to_vec()),
        Ok(_) => panic!("broken tile must abort the build"),
    }
}

#[test]
fn prepare_grid_same_size_is_identity() {
    let mut src = Image::new_filled(2, 2, c8(10, 10, 10, 255));
    src.set_pixel(1, 1, c8(200, 50, 25, 255));
    let g = prepare_grid(&src, 2, 2);
    assert_eq!(g.width, 2);
    assert_eq!(g.height, 2);
    assert_eq!(g.pixels, src.pixels);
}

#[test]
fn prepare_grid_downscales_to_requested_cells() {
    let mut src = Image::new_filled(2, 2, c8(0, 0, 0, 255));
    src.set_pixel(1, 1, c8(255, 255, 255, 255));
    let g = prepare_grid(&src, 1, 1);
    assert_eq!(g.width, 1);
    assert_eq!(g.height, 1);
    assert_eq!(g.pixels.len(), 1);
}

#[test]
fn prepare_tiles_resizes_every_image() {
    let images = vec![
        Image::new_filled(3, 5, c8(9, 9, 9, 255)),
        Image::new_filled(1, 1, c8(7, 7, 7, 255)),
    ];
    let tiles = prepare_tiles(&images, 2, 2);
    assert_eq!(tiles.len(), 2);
    for t in &tiles {
        assert_eq!(t.width, 2);
        assert_eq!(t.height, 2);
        assert_eq!(t.pixels.len(), 4);
    }
    // Resizing a one-pixel image to the same pixel grid keeps the color.
    assert_eq!(tiles[1].get_pixel(0, 0).a, 255);
}
