//! The mosaic compositor: every pixel of a downscaled source grid picks the
//! palette tile whose representative color is nearest, and that tile's
//! image is blitted into the output canvas at the cell's offset.

use vstd::prelude::*;
use crate::color::{Color8, spec_color_of_byte};
use crate::palette::{Palette, nearest_idx, lemma_nearest_idx_minimal};
use crate::raster::{Image, MAX_DIM};
use crate::dither::{dither, uniform, maps_to_self};

verus! {

/// Grid dimensions of an output canvas: how many whole tiles fit. Remainder
/// pixels are not represented in the grid.
pub fn grid_dims(out_w: u32, out_h: u32, tile_w: u32, tile_h: u32) -> (r: (u32, u32))
    requires
        tile_w >= 1,
        tile_h >= 1,
    ensures
        r.0 == out_w as int / tile_w as int,
        r.1 == out_h as int / tile_h as int,
{
    (out_w / tile_w, out_h / tile_h)
}

/// Index of the palette tile that the grid cell (cx, cy) selects: the
/// nearest entry to the cell's pixel.
pub open spec fn cell_tile(grid: Image, palette: Palette, cx: int, cy: int) -> int {
    nearest_idx(palette.items@, spec_color_of_byte(grid.pix(cx, cy)))
}

/// `c * t + i < cap * t` when `c < cap` and `i < t`.
proof fn lemma_cell_coord(c: int, cap: int, t: int, i: int)
    requires
        0 <= c < cap,
        0 <= i < t,
    ensures
        0 <= c * t + i < cap * t,
        c * t + i >= c * t,
{
    assert(0 <= c * t + i < cap * t) by (nonlinear_arith)
        requires
            0 <= c < cap,
            0 <= i < t,
    ;
    assert(c * t + i >= c * t) by (nonlinear_arith)
        requires
            0 <= i,
    ;
}

/// Copies `tile` into `canvas` with its top-left corner at (ox, oy),
/// overwriting the destination rectangle and nothing else.
pub fn blit(canvas: &mut Image, tile: &Image, ox: u32, oy: u32)
    requires
        old(canvas).wf(),
        tile.wf(),
        ox + tile.width <= old(canvas).width,
        oy + tile.height <= old(canvas).height,
    ensures
        final(canvas).wf(),
        final(canvas).width == old(canvas).width,
        final(canvas).height == old(canvas).height,
        forall|x: int, y: int|
            0 <= x < old(canvas).width && 0 <= y < old(canvas).height
                ==> #[trigger] final(canvas).pix(x, y) == if ox <= x < ox + tile.width && oy <= y
                < oy + tile.height {
                tile.pix(x - ox, y - oy)
            } else {
                old(canvas).pix(x, y)
            },
{
    let tw = tile.width;
    let th = tile.height;
    let mut j: u32 = 0;
    while j < th
        invariant
            canvas.wf(),
            tile.wf(),
            canvas.width == old(canvas).width,
            canvas.height == old(canvas).height,
            tile.width == tw,
            tile.height == th,
            ox + tw <= canvas.width,
            oy + th <= canvas.height,
            j <= th,
            forall|x: int, y: int|
                0 <= x < canvas.width && 0 <= y < canvas.height ==> #[trigger] canvas.pix(x, y)
                    == if ox <= x < ox + tw && oy <= y < oy + j {
                    tile.pix(x - ox, y - oy)
                } else {
                    old(canvas).pix(x, y)
                },
        decreases th - j,
    {
        let mut i: u32 = 0;
        while i < tw
            invariant
                canvas.wf(),
                tile.wf(),
                canvas.width == old(canvas).width,
                canvas.height == old(canvas).height,
                tile.width == tw,
                tile.height == th,
                ox + tw <= canvas.width,
                oy + th <= canvas.height,
                j < th,
                i <= tw,
                forall|x: int, y: int|
                    0 <= x < canvas.width && 0 <= y < canvas.height ==> #[trigger] canvas.pix(x, y)
                        == if ox <= x < ox + tw && (oy <= y < oy + j || (y == oy + j && ox <= x
                        < ox + i)) {
                        tile.pix(x - ox, y - oy)
                    } else {
                        old(canvas).pix(x, y)
                    },
            decreases tw - i,
        {
            let c = tile.get_pixel(i, j);
            let ghost precv = *canvas;
            proof {
                canvas.lemma_idx_bounds(ox + i, oy + j);
            }
            canvas.set_pixel(ox + i, oy + j, c);
            proof {
                assert forall|x: int, y: int|
                    0 <= x < canvas.width && 0 <= y < canvas.height implies #[trigger] canvas.pix(
                    x,
                    y,
                ) == if ox <= x < ox + tw && (oy <= y < oy + j || (y == oy + j && ox <= x < ox + i
                    + 1)) {
                    tile.pix(x - ox, y - oy)
                } else {
                    old(canvas).pix(x, y)
                } by {
                    canvas.lemma_idx_bounds(x, y);
                    precv.lemma_idx_bounds(x, y);
                    if x == ox + i && y == oy + j {
                    } else {
                        assert(y * canvas.width + x != (oy + j) * canvas.width + (ox + i)) by (
                        nonlinear_arith)
                            requires
                                0 <= x < canvas.width,
                                0 <= ox + i < canvas.width,
                                0 <= y,
                                0 <= oy + j,
                                !(x == ox + i && y == oy + j),
                        ;
                        assert(canvas.pix(x, y) == precv.pix(x, y));
                    }
                }
            }
            i = i + 1;
        }
        j = j + 1;
    }
}

/// Composites the grid into a canvas: cell (cx, cy) is filled entirely with
/// the tile image of the palette entry nearest to the cell's pixel. Tiles
/// are passed pre-resized, one per palette entry, each `tile_w` by
/// `tile_h`.
pub fn composite_cells(grid: &Image, palette: &Palette, tiles: &Vec<Image>, tile_w: u32, tile_h: u32) -> (out: Image)
    requires
        grid.wf(),
        palette.wf(),
        tiles@.len() == palette.items@.len(),
        forall|t: int|
            0 <= t < tiles@.len() ==> (#[trigger] tiles@[t]).wf() && tiles@[t].width == tile_w
                && tiles@[t].height == tile_h,
        tile_w >= 1,
        tile_h >= 1,
        grid.width * tile_w <= MAX_DIM,
        grid.height * tile_h <= MAX_DIM,
    ensures
        out.wf(),
        out.width == grid.width * tile_w,
        out.height == grid.height * tile_h,
        forall|cx: int, cy: int, i: int, j: int|
            0 <= cx < grid.width && 0 <= cy < grid.height && 0 <= i < tile_w && 0 <= j < tile_h
                ==> #[trigger] out.pix(cx * tile_w + i, cy * tile_h + j) == tiles@[cell_tile(
                *grid,
                *palette,
                cx,
                cy,
            )].pix(i, j),
{
    let gw = grid.width;
    let gh = grid.height;
    proof {
        assert(gw * tile_w >= gw && gh * tile_h >= gh) by (nonlinear_arith)
            requires
                tile_w >= 1,
                tile_h >= 1,
                gw >= 0,
                gh >= 0,
        ;
    }
    let out_w: u32 = gw * tile_w;
    let out_h: u32 = gh * tile_h;
    let mut out = Image::new_filled(out_w, out_h, Color8 { r: 0, g: 0, b: 0, a: 0 });
    let mut cy: u32 = 0;
    while cy < gh
        invariant
            grid.wf(),
            palette.wf(),
            out.wf(),
            grid.width == gw,
            grid.height == gh,
            out.width == out_w,
            out.height == out_h,
            out_w == gw * tile_w,
            out_h == gh * tile_h,
            tiles@.len() == palette.items@.len(),
            forall|t: int|
                0 <= t < tiles@.len() ==> (#[trigger] tiles@[t]).wf() && tiles@[t].width == tile_w
                    && tiles@[t].height == tile_h,
            tile_w >= 1,
            tile_h >= 1,
            cy <= gh,
            forall|cx0: int, cy0: int, i: int, j: int|
                0 <= cx0 < gw && 0 <= cy0 < cy && 0 <= i < tile_w && 0 <= j < tile_h
                    ==> #[trigger] out.pix(cx0 * tile_w + i, cy0 * tile_h + j) == tiles@[cell_tile(
                    *grid,
                    *palette,
                    cx0,
                    cy0,
                )].pix(i, j),
        decreases gh - cy,
    {
        let mut cx: u32 = 0;
        while cx < gw
            invariant
                grid.wf(),
                palette.wf(),
                out.wf(),
                grid.width == gw,
                grid.height == gh,
                out.width == out_w,
                out.height == out_h,
                out_w == gw * tile_w,
                out_h == gh * tile_h,
                tiles@.len() == palette.items@.len(),
                forall|t: int|
                    0 <= t < tiles@.len() ==> (#[trigger] tiles@[t]).wf() && tiles@[t].width
                        == tile_w && tiles@[t].height == tile_h,
                tile_w >= 1,
                tile_h >= 1,
                cy < gh,
                cx <= gw,
                forall|cx0: int, cy0: int, i: int, j: int|
                    0 <= cx0 < gw && 0 <= cy0 < gh && 0 <= i < tile_w && 0 <= j < tile_h && (cy0
                        < cy || (cy0 == cy && cx0 < cx)) ==> #[trigger] out.pix(
                        cx0 * tile_w + i,
                        cy0 * tile_h + j,
                    ) == tiles@[cell_tile(*grid, *palette, cx0, cy0)].pix(i, j),
            decreases gw - cx,
        {
            let p = grid.get_pixel(cx, cy);
            proof {
                lemma_nearest_idx_minimal(palette.items@, spec_color_of_byte(p));
                lemma_cell_coord(cx as int, gw as int, tile_w as int, 0);
                lemma_cell_coord(cy as int, gh as int, tile_h as int, 0);
                assert(cx * tile_w + tile_w <= gw * tile_w && cy * tile_h + tile_h <= gh
                    * tile_h) by (nonlinear_arith)
                    requires
                        cx < gw,
                        cy < gh,
                        tile_w >= 1,
                        tile_h >= 1,
                ;
            }
            let ti = palette.index_of(&p);
            let ghost preout = out;
            blit(&mut out, &tiles[ti], cx * tile_w, cy * tile_h);
            proof {
                let ox = (cx * tile_w) as int;
                let oy = (cy * tile_h) as int;
                assert forall|cx0: int, cy0: int, i: int, j: int|
                    0 <= cx0 < gw && 0 <= cy0 < gh && 0 <= i < tile_w && 0 <= j < tile_h && (cy0
                        < cy || (cy0 == cy && cx0 < cx + 1)) implies #[trigger] out.pix(
                    cx0 * tile_w + i,
                    cy0 * tile_h + j,
                ) == tiles@[cell_tile(*grid, *palette, cx0, cy0)].pix(i, j) by {
                    lemma_cell_coord(cx0, gw as int, tile_w as int, i);
                    lemma_cell_coord(cy0, gh as int, tile_h as int, j);
                    let x = cx0 * tile_w + i;
                    let y = cy0 * tile_h + j;
                    assert(0 <= x < out_w && 0 <= y < out_h) by (nonlinear_arith)
                        requires
                            0 <= cx0 < gw,
                            0 <= cy0 < gh,
                            0 <= i < tile_w,
                            0 <= j < tile_h,
                            x == cx0 * tile_w + i,
                            y == cy0 * tile_h + j,
                            out_w == gw * tile_w,
                            out_h == gh * tile_h,
                    ;
                    if cy0 == cy && cx0 == cx {
                        assert(ox <= x < ox + tile_w && oy <= y < oy + tile_h);
                        assert(out.pix(x, y) == tiles@[ti as int].pix(x - ox, y - oy));
                    } else {
                        assert(!(ox <= x < ox + tile_w && oy <= y < oy + tile_h)) by (
                        nonlinear_arith)
                            requires
                                0 <= cx0 < gw,
                                0 <= cy0 < gh,
                                0 <= i < tile_w,
                                0 <= j < tile_h,
                                x == cx0 * tile_w + i,
                                y == cy0 * tile_h + j,
                                ox == cx * tile_w,
                                oy == cy * tile_h,
                                tile_w >= 1,
                                tile_h >= 1,
                                !(cx0 == cx && cy0 == cy),
                        ;
                        assert(out.pix(x, y) == preout.pix(x, y));
                    }
                }
            }
            cx = cx + 1;
        }
        cy = cy + 1;
    }
    out
}

/// Composites a full mosaic. The grid is the downscaled source image, one
/// pixel per cell; when `use_dither` is set it is dithered in place with
/// the palette as color map before the cells pick their tiles. Whatever
/// the flag, if every grid pixel holds one color that the palette maps to
/// itself, the dither pass changes nothing and the result equals the plain
/// per-cell composition.
pub fn composite(grid: Image, palette: &Palette, tiles: &Vec<Image>, tile_w: u32, tile_h: u32, use_dither: bool) -> (out: Image)
    requires
        grid.wf(),
        palette.wf(),
        tiles@.len() == palette.items@.len(),
        forall|t: int|
            0 <= t < tiles@.len() ==> (#[trigger] tiles@[t]).wf() && tiles@[t].width == tile_w
                && tiles@[t].height == tile_h,
        tile_w >= 1,
        tile_h >= 1,
        grid.width * tile_w <= MAX_DIM,
        grid.height * tile_h <= MAX_DIM,
    ensures
        out.wf(),
        out.width == grid.width * tile_w,
        out.height == grid.height * tile_h,
        !use_dither ==> forall|cx: int, cy: int, i: int, j: int|
            0 <= cx < grid.width && 0 <= cy < grid.height && 0 <= i < tile_w && 0 <= j < tile_h
                ==> #[trigger] out.pix(cx * tile_w + i, cy * tile_h + j) == tiles@[cell_tile(
                grid,
                *palette,
                cx,
                cy,
            )].pix(i, j),
        forall|c: Color8|
            #[trigger] uniform(grid.pixels@, c) && maps_to_self(palette.items@, c) ==> forall|
                cx: int,
                cy: int,
                i: int,
                j: int,
            |
                0 <= cx < grid.width && 0 <= cy < grid.height && 0 <= i < tile_w && 0 <= j < tile_h
                    ==> #[trigger] out.pix(cx * tile_w + i, cy * tile_h + j) == tiles@[cell_tile(
                    grid,
                    *palette,
                    cx,
                    cy,
                )].pix(i, j),
{
    let ghost grid0 = grid;
    let mut g = grid;
    if use_dither {
        dither(&mut g, palette);
    }
    let out = composite_cells(&g, palette, tiles, tile_w, tile_h);
    proof {
        assert forall|c: Color8|
            #[trigger] uniform(grid0.pixels@, c) && maps_to_self(palette.items@, c) implies forall|
            cx: int,
            cy: int,
            i: int,
            j: int,
        |
            0 <= cx < grid0.width && 0 <= cy < grid0.height && 0 <= i < tile_w && 0 <= j < tile_h
                ==> #[trigger] out.pix(cx * tile_w + i, cy * tile_h + j) == tiles@[cell_tile(
                grid0,
                *palette,
                cx,
                cy,
            )].pix(i, j) by {
            assert(g.pixels@ == grid0.pixels@);
            assert forall|cx: int, cy: int, i: int, j: int|
                0 <= cx < grid0.width && 0 <= cy < grid0.height && 0 <= i < tile_w && 0 <= j
                    < tile_h implies #[trigger] out.pix(cx * tile_w + i, cy * tile_h + j)
                == tiles@[cell_tile(grid0, *palette, cx, cy)].pix(i, j) by {
                assert(g.pix(cx, cy) == grid0.pix(cx, cy));
                assert(cell_tile(g, *palette, cx, cy) == cell_tile(grid0, *palette, cx, cy));
            }
        }
        if !use_dither {
            assert(g.pixels@ == grid0.pixels@);
            assert forall|cx: int, cy: int, i: int, j: int|
                0 <= cx < grid0.width && 0 <= cy < grid0.height && 0 <= i < tile_w && 0 <= j
                    < tile_h implies #[trigger] out.pix(cx * tile_w + i, cy * tile_h + j)
                == tiles@[cell_tile(grid0, *palette, cx, cy)].pix(i, j) by {
                assert(g.pix(cx, cy) == grid0.pix(cx, cy));
                assert(cell_tile(g, *palette, cx, cy) == cell_tile(grid0, *palette, cx, cy));
            }
        }
    }
    out
}

} // verus!
