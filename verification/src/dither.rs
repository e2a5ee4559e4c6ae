//! Error-diffusion dithering over an 8-bit image, with the palette as the
//! color map. The kernel is Floyd–Steinberg: each pixel is replaced by its
//! palette match in row-major order and the quantization error of the red,
//! green and blue channels is spread to the not-yet-processed neighbors
//! with weights 7/16 (right), 3/16 (below left), 5/16 (below) and 1/16
//! (below right), clamping each channel to [0, 255]. Alpha carries no
//! error, matching the error kernel of common raster libraries.

use vstd::prelude::*;
use crate::color::{Color8, spec_byte_of_color, spec_color_of_byte};
use crate::palette::{Palette, nearest_idx, lemma_nearest_idx_minimal};
use crate::raster::Image;

verus! {

/// Every pixel of the sequence is `c`.
pub open spec fn uniform(s: Seq<Color8>, c: Color8) -> bool {
    forall|i: int| 0 <= i < s.len() ==> s[i] == c
}

/// The palette maps the 8-bit color `c` back to `c` itself: `c`'s nearest
/// entry converts to exactly `c`.
pub open spec fn maps_to_self(items: Seq<crate::palette::Entry>, c: Color8) -> bool {
    spec_byte_of_color(items[nearest_idx(items, spec_color_of_byte(c))].color) == c
}

/// The pixel `p` is the 8-bit form of some palette color.
pub open spec fn is_palette_color(items: Seq<crate::palette::Entry>, p: Color8) -> bool {
    exists|j: int| 0 <= j < items.len() && p == spec_byte_of_color(#[trigger] items[j].color)
}

/// One channel after receiving a share of the error: `e * f / 16` is added
/// (rounded toward zero) and the result is clamped to [0, 255].
pub open spec fn diffuse_channel(c: u8, e: int, f: int) -> u8 {
    let m = (if e >= 0 {
        e
    } else {
        -e
    }) * f / 16;
    if e >= 0 {
        if c + m > 255 {
            255u8
        } else {
            (c + m) as u8
        }
    } else {
        if c - m < 0 {
            0u8
        } else {
            (c - m) as u8
        }
    }
}

/// A pixel after receiving a share of the red, green and blue errors; alpha
/// is untouched.
pub open spec fn diffused(c: Color8, er: int, eg: int, eb: int, f: int) -> Color8 {
    Color8 {
        r: diffuse_channel(c.r, er, f),
        g: diffuse_channel(c.g, eg, f),
        b: diffuse_channel(c.b, eb, f),
        a: c.a,
    }
}

/// One channel's share of the error, clamped.
fn diffuse_channel_exec(c: u8, e: i32, f: u32) -> (out: u8)
    requires
        -255 <= e <= 255,
        1 <= f <= 7,
    ensures
        out == diffuse_channel(c, e as int, f as int),
{
    let ea: u32 = if e >= 0 {
        e as u32
    } else {
        (-e) as u32
    };
    proof {
        assert(ea * f <= 255 * 7) by (nonlinear_arith)
            requires
                0 <= ea <= 255,
                0 <= f <= 7,
        ;
    }
    let m: u32 = ea * f / 16;
    if e >= 0 {
        let v: u32 = c as u32 + m;
        if v > 255 {
            255
        } else {
            v as u8
        }
    } else {
        if m > c as u32 {
            0
        } else {
            (c as u32 - m) as u8
        }
    }
}

/// Adds a share of the error to the pixel at (x, y).
fn diffuse_pixel(img: &mut Image, x: u32, y: u32, er: i32, eg: i32, eb: i32, f: u32)
    requires
        old(img).wf(),
        x < old(img).width,
        y < old(img).height,
        -255 <= er <= 255,
        -255 <= eg <= 255,
        -255 <= eb <= 255,
        1 <= f <= 7,
    ensures
        final(img).wf(),
        final(img).width == old(img).width,
        final(img).height == old(img).height,
        final(img).pixels@ == old(img).pixels@.update(
            old(img).idx(x as int, y as int),
            diffused(old(img).pix(x as int, y as int), er as int, eg as int, eb as int, f as int),
        ),
        er == 0 && eg == 0 && eb == 0 ==> final(img).pixels@ == old(img).pixels@,
{
    let c = img.get_pixel(x, y);
    let d = Color8 {
        r: diffuse_channel_exec(c.r, er, f),
        g: diffuse_channel_exec(c.g, eg, f),
        b: diffuse_channel_exec(c.b, eb, f),
        a: c.a,
    };
    img.set_pixel(x, y, d);
    proof {
        img.lemma_idx_bounds(x as int, y as int);
        if er == 0 && eg == 0 && eb == 0 {
            assert(d == c);
            assert(img.pixels@ =~= old(img).pixels@);
        }
    }
}

/// A coordinate strictly after (x0, y0) in row-major order has a strictly
/// greater row-major index.
proof fn lemma_idx_after(img: &Image, x: int, y: int, x0: int, y0: int)
    requires
        img.wf(),
        0 <= x < img.width,
        0 <= y < img.height,
        0 <= x0 < img.width,
        0 <= y0 < img.height,
        y > y0 || (y == y0 && x > x0),
    ensures
        img.idx(x, y) > img.idx(x0, y0),
        0 <= img.idx(x, y) < img.pixels@.len(),
{
    img.lemma_idx_bounds(x, y);
    img.lemma_idx_bounds(x0, y0);
    let w = img.width as int;
    assert(y * w + x > y0 * w + x0) by (nonlinear_arith)
        requires
            0 <= x0 < w,
            0 <= x < w,
            y > y0 || (y == y0 && x > x0),
    ;
}

/// Dithers the image in place with the palette as color map. Every pixel of
/// the result is the 8-bit form of some palette color; and if every pixel
/// holds one color that the palette maps back to itself, nothing changes:
/// no error is ever diffused.
pub fn dither(img: &mut Image, palette: &Palette)
    requires
        old(img).wf(),
        palette.wf(),
    ensures
        final(img).wf(),
        final(img).width == old(img).width,
        final(img).height == old(img).height,
        forall|i: int|
            0 <= i < final(img).pixels@.len() ==> is_palette_color(
                palette.items@,
                #[trigger] final(img).pixels@[i],
            ),
        forall|c: Color8|
            #[trigger] uniform(old(img).pixels@, c) && maps_to_self(palette.items@, c)
                ==> final(img).pixels@ == old(img).pixels@,
{
    let w = img.width;
    let h = img.height;
    let mut y: u32 = 0;
    while y < h
        invariant
            img.wf(),
            palette.wf(),
            img.width == w,
            img.height == h,
            w == old(img).width,
            h == old(img).height,
            y <= h,
            forall|i: int|
                0 <= i < (y * w) as int ==> is_palette_color(
                    palette.items@,
                    #[trigger] img.pixels@[i],
                ),
            forall|c: Color8|
                #[trigger] uniform(old(img).pixels@, c) && maps_to_self(palette.items@, c)
                    ==> img.pixels@ == old(img).pixels@,
        decreases h - y,
    {
        let mut x: u32 = 0;
        while x < w
            invariant
                img.wf(),
                palette.wf(),
                img.width == w,
                img.height == h,
                w == old(img).width,
                h == old(img).height,
                y < h,
                x <= w,
                forall|i: int|
                    0 <= i < (y * w + x) as int ==> is_palette_color(
                        palette.items@,
                        #[trigger] img.pixels@[i],
                    ),
                forall|c: Color8|
                    #[trigger] uniform(old(img).pixels@, c) && maps_to_self(palette.items@, c)
                        ==> img.pixels@ == old(img).pixels@,
            decreases w - x,
        {
            let ghost pre = img.pixels@;
            let ghost pos = img.idx(x as int, y as int);
            proof {
                img.lemma_idx_bounds(x as int, y as int);
                lemma_nearest_idx_minimal(
                    palette.items@,
                    spec_color_of_byte(img.pix(x as int, y as int)),
                );
            }
            let oldp = img.get_pixel(x, y);
            let mut newp = oldp;
            palette.map_color(&mut newp);
            img.set_pixel(x, y, newp);
            let er: i32 = oldp.r as i32 - newp.r as i32;
            let eg: i32 = oldp.g as i32 - newp.g as i32;
            let eb: i32 = oldp.b as i32 - newp.b as i32;
            if x + 1 < w {
                proof {
                    lemma_idx_after(img, x + 1, y as int, x as int, y as int);
                }
                diffuse_pixel(img, x + 1, y, er, eg, eb, 7);
            }
            if y + 1 < h {
                if x >= 1 {
                    proof {
                        lemma_idx_after(img, x - 1, y + 1, x as int, y as int);
                    }
                    diffuse_pixel(img, x - 1, y + 1, er, eg, eb, 3);
                }
                proof {
                    lemma_idx_after(img, x as int, y + 1, x as int, y as int);
                }
                diffuse_pixel(img, x, y + 1, er, eg, eb, 5);
                if x + 1 < w {
                    proof {
                        lemma_idx_after(img, x + 1, y + 1, x as int, y as int);
                    }
                    diffuse_pixel(img, x + 1, y + 1, er, eg, eb, 1);
                }
            }
            proof {
                assert(pos == (y * w + x) as int);
                assert forall|i: int| 0 <= i < pos + 1 implies is_palette_color(
                    palette.items@,
                    #[trigger] img.pixels@[i],
                ) by {
                    if i < pos {
                        assert(img.pixels@[i] == pre[i]);
                        assert(is_palette_color(palette.items@, pre[i]));
                    } else {
                        let nj = nearest_idx(palette.items@, spec_color_of_byte(oldp));
                        assert(img.pixels@[pos] == newp);
                        assert(0 <= nj < palette.items@.len() && newp == spec_byte_of_color(
                            palette.items@[nj].color,
                        ));
                    }
                }
                assert forall|c: Color8|
                    #[trigger] uniform(old(img).pixels@, c) && maps_to_self(
                        palette.items@,
                        c,
                    ) implies img.pixels@ == old(img).pixels@ by {
                    assert(pre == old(img).pixels@);
                    assert(pre[pos] == c);
                    assert(oldp == c);
                    assert(newp == c);
                    assert(pre.update(pos, newp) =~= pre);
                    assert(er == 0 && eg == 0 && eb == 0);
                }
            }
            x = x + 1;
        }
        y = y + 1;
        proof {
            assert((y * w) as int == ((y - 1) * w + w) as int) by (nonlinear_arith)
                requires
                    1 <= y <= h,
            ;
        }
    }
    proof {
        assert((y * w) as int == img.pixels@.len()) by (nonlinear_arith)
            requires
                y == h,
                img.pixels@.len() == w * h,
        ;
    }
}

} // verus!
