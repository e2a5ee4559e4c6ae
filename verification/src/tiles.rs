//! Decoding and resizing of tile and source images, and palette building.
//! Decoding and resampling are done by an outside raster library behind
//! trusted wrappers; everything around them — byte-buffer conversion,
//! averaging, error handling — is verified.

use vstd::prelude::*;
use crate::average::{average_color, spec_average};
use crate::color::{Color, Color8};
use crate::palette::{Entry, Palette};
use crate::raster::{Image, MAX_DIM};

verus! {

/// What the raster library decodes from an image file's bytes: the
/// dimensions and the tightly packed RGBA buffer, or nothing when the bytes
/// are not a decodable image. Decoding is a function of the bytes alone.
pub uninterp spec fn decoded_rgba(bytes: Seq<u8>) -> Option<(u32, u32, Seq<u8>)>;

/// What the raster library's Gaussian resampler produces from a tightly
/// packed RGBA buffer of the given dimensions, at the new dimensions. A
/// function of the buffer and the four dimensions alone.
pub uninterp spec fn gaussian_resized(raw: Seq<u8>, w: u32, h: u32, nw: u32, nh: u32) -> Seq<u8>;

/// The pixel at index `i` of a tightly packed RGBA buffer.
pub open spec fn pix_of_raw(raw: Seq<u8>, i: int) -> Color8 {
    Color8 { r: raw[4 * i], g: raw[4 * i + 1], b: raw[4 * i + 2], a: raw[4 * i + 3] }
}

/// The `n` pixels of a tightly packed RGBA buffer.
pub open spec fn pixels_of_raw(raw: Seq<u8>, n: nat) -> Seq<Color8> {
    Seq::new(n, |i: int| pix_of_raw(raw, i))
}

/// The tightly packed RGBA buffer of a pixel sequence.
pub open spec fn raw_of(s: Seq<Color8>) -> Seq<u8> {
    Seq::new(
        4 * s.len(),
        |k: int|
            {
                let p = s[k / 4];
                if k % 4 == 0 {
                    p.r
                } else if k % 4 == 1 {
                    p.g
                } else if k % 4 == 2 {
                    p.b
                } else {
                    p.a
                }
            },
    )
}

/// Packing pixels into a raw buffer and reading them back is the identity.
pub proof fn lemma_raw_round_trip(s: Seq<Color8>)
    ensures
        pixels_of_raw(raw_of(s), s.len()) == s,
{
    let r = raw_of(s);
    assert forall|i: int| 0 <= i < s.len() implies pixels_of_raw(r, s.len())[i] == s[i] by {
        assert((4 * i) / 4 == i && (4 * i) % 4 == 0);
        assert((4 * i + 1) / 4 == i && (4 * i + 1) % 4 == 1);
        assert((4 * i + 2) / 4 == i && (4 * i + 2) % 4 == 2);
        assert((4 * i + 3) / 4 == i && (4 * i + 3) % 4 == 3);
    }
    assert(pixels_of_raw(r, s.len()) =~= s);
}

/// Relies on image::load_from_memory and DynamicImage::to_rgba8: decoding
/// is a function of the bytes alone, and the decoded RGBA buffer is tightly
/// packed, four bytes per pixel.
#[verifier::external_body]
fn decode_rgba_raw(bytes: &Vec<u8>) -> (r: Option<(u32, u32, Vec<u8>)>)
    ensures
        match r {
            Some(t) => decoded_rgba(bytes@) == Some((t.0, t.1, t.2@)) && t.2@.len() == 4 * t.0
                * t.1,
            None => decoded_rgba(bytes@) is None,
        },
{
    match image::load_from_memory(bytes.as_slice()) {
        Ok(d) => {
            let img = d.to_rgba8();
            let (w, h) = img.dimensions();
            Some((w, h, img.into_raw()))
        },
        Err(_) => None,
    }
}

/// Relies on image::imageops::resize with FilterType::Gaussian: a pure
/// function of the buffer and the dimensions, returning a tightly packed
/// buffer of the new dimensions; resizing to the same dimensions copies
/// the buffer unchanged. image::ImageBuffer::from_raw accepts any buffer
/// of exactly `4 * w * h` bytes.
#[verifier::external_body]
fn resize_gaussian_raw(raw: &Vec<u8>, w: u32, h: u32, nw: u32, nh: u32) -> (r: Vec<u8>)
    requires
        raw@.len() == 4 * w * h,
        w >= 1,
        h >= 1,
        nw >= 1,
        nh >= 1,
    ensures
        r@ == gaussian_resized(raw@, w, h, nw, nh),
        r@.len() == 4 * nw * nh,
        nw == w && nh == h ==> r@ == raw@,
{
    let img: image::RgbaImage = image::ImageBuffer::from_raw(w, h, raw.clone()).unwrap();
    image::imageops::resize(&img, nw, nh, image::imageops::FilterType::Gaussian).into_raw()
}

/// Builds an [`Image`] from a tightly packed RGBA buffer.
fn image_from_raw(width: u32, height: u32, raw: &Vec<u8>) -> (img: Image)
    requires
        raw@.len() == 4 * width * height,
        width <= MAX_DIM,
        height <= MAX_DIM,
    ensures
        img.wf(),
        img.width == width,
        img.height == height,
        img.pixels@ == pixels_of_raw(raw@, (width * height) as nat),
{
    let rl = raw.len();
    proof {
        assert(rl == 4 * ((width * height) as int)) by (nonlinear_arith)
            requires
                rl == 4 * width * height,
        ;
        vstd::arithmetic::div_mod::lemma_div_multiples_vanish((width * height) as int, 4);
        assert((4 * ((width * height) as int)) / 4 == (width * height) as int);
    }
    let n: usize = rl / 4;
    let mut pixels: Vec<Color8> = Vec::new();
    let mut i: usize = 0;
    while i < n
        invariant
            rl == raw@.len(),
            rl == 4 * n,
            n == width * height,
            i <= n,
            pixels@.len() == i,
            forall|k: int| 0 <= k < i ==> pixels@[k] == pix_of_raw(raw@, k),
        decreases n - i,
    {
        let p = Color8 { r: raw[4 * i], g: raw[4 * i + 1], b: raw[4 * i + 2], a: raw[4 * i + 3] };
        pixels.push(p);
        i = i + 1;
    }
    proof {
        assert(pixels@ =~= pixels_of_raw(raw@, (width * height) as nat));
    }
    Image { width, height, pixels }
}

/// Packs an [`Image`] into a tightly packed RGBA buffer.
fn raw_from_image(img: &Image) -> (raw: Vec<u8>)
    requires
        img.wf(),
    ensures
        raw@ == raw_of(img.pixels@),
{
    let n = img.pixels.len();
    let mut raw: Vec<u8> = Vec::new();
    let mut i: usize = 0;
    while i < n
        invariant
            n == img.pixels@.len(),
            i <= n,
            raw@.len() == 4 * i,
            forall|k: int| 0 <= k < 4 * i ==> raw@[k] == raw_of(img.pixels@)[k],
        decreases n - i,
    {
        let p = img.pixels[i];
        raw.push(p.r);
        raw.push(p.g);
        raw.push(p.b);
        raw.push(p.a);
        proof {
            assert forall|k: int| 0 <= k < 4 * (i + 1) implies raw@[k] == raw_of(img.pixels@)[k] by {
                if k >= 4 * i {
                    assert(k / 4 == i && (k == 4 * i || k == 4 * i + 1 || k == 4 * i + 2 || k == 4
                        * i + 3));
                }
            }
        }
        i = i + 1;
    }
    proof {
        assert(raw@ =~= raw_of(img.pixels@));
    }
    raw
}

/// A candidate tile could not be decoded (or its decoded form has no pixels
/// or is larger than the library's dimension cap); the identifier says
/// which tile failed.
#[derive(Clone, Debug)]
pub struct DecodeError {
    pub tile: Vec<u8>,
}

/// The candidate bytes decode to a usable tile: a nonempty image within the
/// dimension cap.
pub open spec fn tile_ok(bytes: Seq<u8>) -> bool {
    match decoded_rgba(bytes) {
        Some(t) => 1 <= t.0 <= MAX_DIM && 1 <= t.1 <= MAX_DIM,
        None => false,
    }
}

/// The pixels of a decodable candidate tile.
pub open spec fn tile_pixels(bytes: Seq<u8>) -> Seq<Color8>
    recommends
        tile_ok(bytes),
{
    match decoded_rgba(bytes) {
        Some(t) => pixels_of_raw(t.2, (t.0 * t.1) as nat),
        None => Seq::empty(),
    }
}

/// The representative color of a decodable candidate tile: the mean of its
/// pixels.
pub open spec fn tile_avg_color(bytes: Seq<u8>) -> Color
    recommends
        tile_ok(bytes),
{
    spec_average(tile_pixels(bytes))
}

/// Builds a palette from candidate tiles, each an identifier and the bytes
/// of an image file. Every candidate is decoded and reduced to its mean
/// color; candidates keep their order. The first candidate that does not
/// decode to a usable tile aborts the build, and the error names it.
pub fn build_palette(candidates: &Vec<(Vec<u8>, Vec<u8>)>) -> (r: Result<Palette, DecodeError>)
    requires
        candidates@.len() >= 1,
    ensures
        match r {
            Ok(p) => {
                &&& forall|i: int|
                    0 <= i < candidates@.len() ==> tile_ok((#[trigger] candidates@[i]).1@)
                &&& p.wf()
                &&& p.items@.len() == candidates@.len()
                &&& forall|i: int|
                    0 <= i < candidates@.len() ==> (#[trigger] p.items@[i]).tile@
                        == candidates@[i].0@ && p.items@[i].color == tile_avg_color(
                        candidates@[i].1@,
                    )
            },
            Err(e) => exists|i: int|
                0 <= i < candidates@.len() && !tile_ok((#[trigger] candidates@[i]).1@) && e.tile@
                    == candidates@[i].0@ && (forall|j: int|
                    0 <= j < i ==> tile_ok((#[trigger] candidates@[j]).1@)),
        },
{
    let n = candidates.len();
    let mut items: Vec<Entry> = Vec::new();
    let mut i: usize = 0;
    while i < n
        invariant
            n == candidates@.len(),
            i <= n,
            items@.len() == i,
            forall|j: int| 0 <= j < i ==> tile_ok((#[trigger] candidates@[j]).1@),
            forall|j: int|
                0 <= j < i ==> (#[trigger] items@[j]).tile@ == candidates@[j].0@
                    && items@[j].color == tile_avg_color(candidates@[j].1@)
                    && items@[j].color.wf(),
        decreases n - i,
    {
        let cand = &candidates[i];
        match decode_rgba_raw(&cand.1) {
            None => {
                return Err(DecodeError { tile: clone_bytes(&cand.0) });
            },
            Some((w, h, raw)) => {
                if w < 1 || h < 1 || w > MAX_DIM || h > MAX_DIM {
                    return Err(DecodeError { tile: clone_bytes(&cand.0) });
                }
                let img = image_from_raw(w, h, &raw);
                let color = average_color(&img);
                items.push(Entry { tile: clone_bytes(&cand.0), color });
            },
        }
        i = i + 1;
    }
    Ok(Palette::from(items))
}

/// Copies a byte identifier.
fn clone_bytes(v: &Vec<u8>) -> (out: Vec<u8>)
    ensures
        out@ == v@,
{
    let n = v.len();
    let mut out: Vec<u8> = Vec::new();
    let mut i: usize = 0;
    while i < n
        invariant
            n == v@.len(),
            i <= n,
            out@ == v@.take(i as int),
        decreases n - i,
    {
        out.push(v[i]);
        proof {
            assert(out@ =~= v@.take(i + 1));
        }
        i = i + 1;
    }
    proof {
        assert(v@.take(n as int) =~= v@);
    }
    out
}

/// Downscales the source image to the grid: one pixel per output tile,
/// resampled with the Gaussian filter. Resizing to the source's own
/// dimensions leaves every pixel unchanged.
pub fn prepare_grid(source: &Image, grid_w: u32, grid_h: u32) -> (g: Image)
    requires
        source.wf(),
        source.width >= 1,
        source.height >= 1,
        1 <= grid_w <= MAX_DIM,
        1 <= grid_h <= MAX_DIM,
    ensures
        g.wf(),
        g.width == grid_w,
        g.height == grid_h,
        g.pixels@ == pixels_of_raw(
            gaussian_resized(raw_of(source.pixels@), source.width, source.height, grid_w, grid_h),
            (grid_w * grid_h) as nat,
        ),
        grid_w == source.width && grid_h == source.height ==> g.pixels@ == source.pixels@,
{
    let raw = raw_from_image(source);
    proof {
        assert(raw@.len() == 4 * source.width * source.height) by (nonlinear_arith)
            requires
                raw@.len() == 4 * (source.width * source.height),
        ;
    }
    let resized = resize_gaussian_raw(&raw, source.width, source.height, grid_w, grid_h);
    let g = image_from_raw(grid_w, grid_h, &resized);
    proof {
        if grid_w == source.width && grid_h == source.height {
            lemma_raw_round_trip(source.pixels@);
        }
    }
    g
}

/// Resizes every decoded candidate image to the per-tile output dimensions,
/// in order, ready for composition.
pub fn prepare_tiles(images: &Vec<Image>, tile_w: u32, tile_h: u32) -> (out: Vec<Image>)
    requires
        forall|t: int|
            0 <= t < images@.len() ==> (#[trigger] images@[t]).wf() && images@[t].width >= 1
                && images@[t].height >= 1,
        1 <= tile_w <= MAX_DIM,
        1 <= tile_h <= MAX_DIM,
    ensures
        out@.len() == images@.len(),
        forall|t: int|
            0 <= t < out@.len() ==> (#[trigger] out@[t]).wf() && out@[t].width == tile_w
                && out@[t].height == tile_h && out@[t].pixels@ == pixels_of_raw(
                gaussian_resized(
                    raw_of(images@[t].pixels@),
                    images@[t].width,
                    images@[t].height,
                    tile_w,
                    tile_h,
                ),
                (tile_w * tile_h) as nat,
            ),
{
    let n = images.len();
    let mut out: Vec<Image> = Vec::new();
    let mut i: usize = 0;
    while i < n
        invariant
            n == images@.len(),
            forall|t: int|
                0 <= t < images@.len() ==> (#[trigger] images@[t]).wf() && images@[t].width >= 1
                    && images@[t].height >= 1,
            1 <= tile_w <= MAX_DIM,
            1 <= tile_h <= MAX_DIM,
            i <= n,
            out@.len() == i,
            forall|t: int|
                0 <= t < i ==> (#[trigger] out@[t]).wf() && out@[t].width == tile_w
                    && out@[t].height == tile_h && out@[t].pixels@ == pixels_of_raw(
                    gaussian_resized(
                        raw_of(images@[t].pixels@),
                        images@[t].width,
                        images@[t].height,
                        tile_w,
                        tile_h,
                    ),
                    (tile_w * tile_h) as nat,
                ),
        decreases n - i,
    {
        let src = &images[i];
        let raw = raw_from_image(src);
        proof {
            assert(raw_of(src.pixels@).len() == 4 * src.pixels@.len());
            assert(raw@.len() == 4 * src.width * src.height) by (nonlinear_arith)
                requires
                    raw@.len() == 4 * (src.width * src.height),
            ;
        }
        let resized = resize_gaussian_raw(&raw, src.width, src.height, tile_w, tile_h);
        let t = image_from_raw(tile_w, tile_h, &resized);
        out.push(t);
        i = i + 1;
    }
    out
}

} // verus!
