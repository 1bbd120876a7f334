//! Reading a rendered composition back: every cell block of a clean raster holds
//! exactly the color of its cell, so parsing recovers the drawn glyphs.

use vstd::prelude::*;
use crate::codec::{
    decode_spec, encode_spec, frame_spec, frames_to, glyphs_check, glyphs_needed_spec, lemma_ceil_div,
    lemma_frame_len, lemma_stream_glyphs_valid, lemma_v2_roundtrip, need_bits_spec, pad_bits, zero_bits,
    EncodeOptions,
};
use crate::color::{lemma_color_roundtrip, rgb_spec};
use crate::digits::bits_msb;
use crate::error::GlyphixError;
use crate::grid::{lemma_palette_check_ok, profile_check, GridView};
use crate::layout::{
    ceil_div_u32, cell_of, image_size_spec, lemma_infer_grid_roundtrip, lemma_infer_strip_roundtrip,
    lemma_tile_in_image, origin_spec, origins_spec, u32_max, GlyphLayout, LayoutOptions, Separator,
};
use crate::pack::{lemma_glyphs_stream_roundtrip, lemma_stream_of_glyphs_push, stream_of_glyph, stream_of_glyphs};
use crate::profile::GlyphProfile;
use crate::render::{
    bar_rects, bars_rects, blank_canvas, block_index, block_uniform, blocks_spec, cell_rect, covers,
    decode_png_spec, decode_raster_spec, drawn_raster, fits_profile, glyph_rects, glyphs_rects, image_decoding,
    lemma_first_err_none, lemma_origin_of_origins, lemma_origins_len, lemma_paint_all_len, lemma_pixel_coords,
    lemma_pixel_in_canvas, paint_all, parse_spec, pixel_offset, prepare_spec, read_blocks_spec, rect_byte,
    render_fits, render_frame, render_rects, PaintRect, RasterView, RenderOptions,
};

verus! {

/// A byte of a pixel keeps the color of the last rectangle painted over that pixel.
pub proof fn lemma_paint_all_last(buf: Seq<u8>, width: u32, rs: Seq<PaintRect>, t: int, x: int, y: int, j: int)
    requires
        0 <= x < width,
        0 <= y,
        0 <= j < 4,
        pixel_offset(width as int, x, y) + j < buf.len(),
        0 <= t < rs.len(),
        covers(rs[t], x, y),
        forall|u: int| t < u < rs.len() ==> !covers(#[trigger] rs[u], x, y),
    ensures
        paint_all(buf, width, rs)[pixel_offset(width as int, x, y) + j] == rect_byte(rs[t], j),
    decreases rs.len(),
{
    lemma_pixel_coords(width as int, x, y, j);
    lemma_paint_all_len(buf, width, rs.drop_last());
    if t < rs.len() - 1 {
        lemma_paint_all_last(buf, width, rs.drop_last(), t, x, y, j);
        assert(!covers(rs[rs.len() - 1], x, y));
    }
}

/// Two positions along an axis that fall in slots of one pitch agree on slot
/// and offset.
pub proof fn lemma_same_slot(a: int, b: int, d1: int, d2: int, pitch: int)
    requires
        pitch >= 1,
        0 <= d1 < pitch,
        0 <= d2 < pitch,
        a * pitch + d1 == b * pitch + d2,
    ensures
        a == b,
        d1 == d2,
{
    vstd::arithmetic::div_mod::lemma_fundamental_div_mod_converse(a * pitch + d1, pitch, a, d1);
    vstd::arithmetic::div_mod::lemma_fundamental_div_mod_converse(b * pitch + d2, pitch, b, d2);
}

/// The cell rectangles of the first `m` glyphs: `cells` per glyph, glyph by glyph.
pub proof fn lemma_glyphs_rects_at(p: GlyphProfile, gs: Seq<GridView>, os: Seq<(u32, u32)>, s: u32, m: nat, i: int, k: int)
    requires
        p.width >= 1,
        0 <= i < m,
        0 <= k < p.cells(),
        m <= gs.len(),
        m <= os.len(),
    ensures
        glyphs_rects(p, gs, os, s, m).len() == m * p.cells(),
        glyphs_rects(p, gs, os, s, m)[i * p.cells() + k]
            == cell_rect(p, gs[i], os[i].0, os[i].1, s, k % (p.width as int), k / (p.width as int)),
    decreases m,
{
    let c = p.cells() as int;
    lemma_glyphs_rects_len(p, gs, os, s, (m - 1) as nat);
    assert((m - 1) * c + c == m * c) by (nonlinear_arith);
    if i < m - 1 {
        lemma_glyphs_rects_at(p, gs, os, s, (m - 1) as nat, i, k);
        assert(i * c + k < (m - 1) * c) by (nonlinear_arith)
            requires
                i <= m - 2,
                k < c,
                c >= 0,
        ;
    }
}

/// `m` glyphs give `m × cells` cell rectangles.
pub proof fn lemma_glyphs_rects_len(p: GlyphProfile, gs: Seq<GridView>, os: Seq<(u32, u32)>, s: u32, m: nat)
    ensures
        glyphs_rects(p, gs, os, s, m).len() == m * p.cells(),
    decreases m,
{
    if m > 0 {
        lemma_glyphs_rects_len(p, gs, os, s, (m - 1) as nat);
        let g = glyph_rects(p, gs[m - 1], os[m - 1].0, os[m - 1].1, s);
        assert(glyphs_rects(p, gs, os, s, m) == glyphs_rects(p, gs, os, s, (m - 1) as nat) + g);
        assert(g.len() == p.cells());
        assert((m - 1) * p.cells() + p.cells() == m * p.cells()) by (nonlinear_arith);
    } else {
        assert(m * p.cells() == 0) by (nonlinear_arith)
            requires
                m == 0,
        ;
    }
}

/// A pixel that no separator bar of any of the first `m` glyphs covers is covered
/// by none of their bars.
pub proof fn lemma_bars_clear(p: GlyphProfile, lo: LayoutOptions, sep: Separator, os: Seq<(u32, u32)>, n: int, m: nat, x: int, y: int)
    requires
        forall|i: int, v: int| 0 <= i < m && 0 <= v < bar_rects(p, lo, sep, i, n, os[i].0, os[i].1).len()
            ==> !covers(#[trigger] bar_rects(p, lo, sep, i, n, os[i].0, os[i].1)[v], x, y),
    ensures
        forall|u: int| 0 <= u < bars_rects(p, lo, sep, os, n, m).len() ==> !covers(#[trigger] bars_rects(p, lo, sep, os, n, m)[u], x, y),
    decreases m,
{
    if m > 0 {
        lemma_bars_clear(p, lo, sep, os, n, (m - 1) as nat, x, y);
        let front = bars_rects(p, lo, sep, os, n, (m - 1) as nat);
        let last = bar_rects(p, lo, sep, m - 1, n, os[m - 1].0, os[m - 1].1);
        assert forall|u: int| 0 <= u < bars_rects(p, lo, sep, os, n, m).len() implies !covers(#[trigger] bars_rects(p, lo, sep, os, n, m)[u], x, y) by {
            if u >= front.len() {
                assert(bars_rects(p, lo, sep, os, n, m)[u] == last[u - front.len()]);
            } else {
                assert(bars_rects(p, lo, sep, os, n, m)[u] == front[u]);
            }
        }
    }
}

/// Along one axis, a position inside cell `cx` of the tile in slot `col` pins
/// down the slot, the cell and the offset inside the cell.
pub proof fn lemma_axis_cells(col: int, col2: int, pitch: int, size: int, unit: int, cx: int, cx2: int, d: int, d2: int)
    requires
        unit >= 1,
        0 <= cx,
        0 <= cx2,
        cx * unit + unit <= size,
        cx2 * unit + unit <= size,
        size <= pitch,
        0 <= d < unit,
        0 <= d2 < unit,
        col * pitch + cx * unit + d == col2 * pitch + cx2 * unit + d2,
    ensures
        col == col2,
        cx == cx2,
        d == d2,
{
    assert(cx * unit >= 0 && cx2 * unit >= 0) by (nonlinear_arith)
        requires
            cx >= 0,
            cx2 >= 0,
            unit >= 1,
    ;
    lemma_same_slot(col, col2, cx * unit + d, cx2 * unit + d2, pitch);
    lemma_same_slot(cx, cx2, d, d2, unit);
}

/// Along one axis, a position inside a tile is never inside the gap that
/// follows a tile.
pub proof fn lemma_axis_gap(col: int, col3: int, pitch: int, size: int, unit: int, cx: int, d: int, e: int, th: int)
    requires
        unit >= 1,
        0 <= cx,
        cx * unit + unit <= size,
        size + th <= pitch,
        0 <= d < unit,
        0 <= e < th,
    ensures
        col * pitch + cx * unit + d != col3 * pitch + size + e,
{
    assert(cx * unit >= 0) by (nonlinear_arith)
        requires
            cx >= 0,
            unit >= 1,
    ;
    if col * pitch + cx * unit + d == col3 * pitch + size + e {
        lemma_same_slot(col, col3, cx * unit + d, size + e, pitch);
    }
}

/// Distinct glyphs sit in distinct cells of the layout.
pub proof fn lemma_cell_of_injective(l: GlyphLayout, i: usize, i2: usize)
    requires
        l.valid(),
        i <= u32_max(),
        i2 <= u32_max(),
        cell_of(l, i) == cell_of(l, i2),
    ensures
        i == i2,
{
    assert(i as u32 == i && i2 as u32 == i2);
    match l {
        GlyphLayout::HorizontalStrip => {},
        GlyphLayout::Grid { columns } => {
            vstd::arithmetic::div_mod::lemma_fundamental_div_mod(i as int, columns as int);
            vstd::arithmetic::div_mod::lemma_fundamental_div_mod(i2 as int, columns as int);
        },
    }
}

/// The origin of glyph `i`: the margin plus whole steps per column and row.
pub proof fn lemma_origin_form(p: GlyphProfile, i: usize, n: usize, lo: LayoutOptions, ox: u32, oy: u32)
    requires
        origin_spec(p, i, n, lo) == Ok::<(u32, u32), GlyphixError>((ox, oy)),
    ensures
        ox == lo.margin + cell_of(lo.layout, i).0 * (p.width * lo.cell_scale + lo.gap_x + lo.sep()),
        oy == lo.margin + cell_of(lo.layout, i).1 * (p.height * lo.cell_scale + lo.gap_y + lo.sep()),
        p.width * lo.cell_scale + lo.gap_x + lo.sep() <= u32_max(),
        p.height * lo.cell_scale + lo.gap_y + lo.sep() <= u32_max(),
{
}

/// No separator bar covers a pixel of a cell block.
pub proof fn lemma_cell_clear_of_bars(
    p: GlyphProfile,
    n: nat,
    lo: LayoutOptions,
    sep: Separator,
    w: u32,
    h: u32,
    os: Seq<(u32, u32)>,
    i: int,
    cx: int,
    cy: int,
    dx: int,
    dy: int,
)
    requires
        p.width >= 1,
        p.height >= 1,
        lo.valid(),
        lo.separator == Some(sep),
        1 <= n <= u32_max(),
        image_size_spec(p, n as usize, lo) == Ok::<(u32, u32), GlyphixError>((w, h)),
        origins_spec(p, n, n as usize, lo) == Ok::<Seq<(u32, u32)>, GlyphixError>(os),
        0 <= i < n,
        0 <= cx < p.width,
        0 <= cy < p.height,
        0 <= dx < lo.cell_scale,
        0 <= dy < lo.cell_scale,
    ensures
        forall|i3: int, v: int| 0 <= i3 < n && 0 <= v < bar_rects(p, lo, sep, i3, n as int, os[i3].0, os[i3].1).len()
            ==> !covers(#[trigger] bar_rects(p, lo, sep, i3, n as int, os[i3].0, os[i3].1)[v],
                os[i].0 + cx * lo.cell_scale + dx, os[i].1 + cy * lo.cell_scale + dy),
{
    let s = lo.cell_scale as int;
    let gw = p.width * s;
    let gh = p.height * s;
    let sx = gw + lo.gap_x + lo.sep();
    let sy = gh + lo.gap_y + lo.sep();
    let th = sep.thickness as int;
    lemma_origins_len(p, n, n as usize, lo, os);
    lemma_origin_of_origins(p, n, n as usize, lo, os, i as nat);
    let ox = os[i].0;
    let oy = os[i].1;
    lemma_origin_form(p, i as usize, n as usize, lo, ox, oy);
    let col = cell_of(lo.layout, i as usize).0 as int;
    let row = cell_of(lo.layout, i as usize).1 as int;
    let x = ox + cx * s + dx;
    let y = oy + cy * s + dy;
    assert(cx * s + s <= gw) by (nonlinear_arith)
        requires
            cx + 1 <= p.width,
            s >= 1,
            gw == p.width * s,
    ;
    assert(cy * s + s <= gh) by (nonlinear_arith)
        requires
            cy + 1 <= p.height,
            s >= 1,
            gh == p.height * s,
    ;
    assert forall|i3: int, v: int| 0 <= i3 < n && 0 <= v < bar_rects(p, lo, sep, i3, n as int, os[i3].0, os[i3].1).len()
        implies !covers(#[trigger] bar_rects(p, lo, sep, i3, n as int, os[i3].0, os[i3].1)[v], x, y) by {
        lemma_origin_of_origins(p, n, n as usize, lo, os, i3 as nat);
        let ox3 = os[i3].0;
        let oy3 = os[i3].1;
        lemma_origin_form(p, i3 as usize, n as usize, lo, ox3, oy3);
        lemma_tile_in_image(p, n as usize, lo, w, h, i3 as usize, ox3, oy3);
        let col3 = cell_of(lo.layout, i3 as usize).0 as int;
        let row3 = cell_of(lo.layout, i3 as usize).1 as int;
        let bars = bar_rects(p, lo, sep, i3, n as int, ox3, oy3);
        let r = bars[v];
        if covers(r, x, y) {
            let gwu = (p.width * lo.cell_scale) as u32;
            let ghu = (p.height * lo.cell_scale) as u32;
            let c = sep.color;
            let right = PaintRect { x: (ox3 + gwu) as u32, y: oy3, w: sep.thickness, h: ghu, r: c[0], g: c[1], b: c[2] };
            let below = PaintRect { x: ox3, y: (oy3 + ghu) as u32, w: gwu, h: sep.thickness, r: c[0], g: c[1], b: c[2] };
            assert(r == right || r == below);
            if r == right {
                lemma_axis_gap(col, col3, sx, gw, s, cx, dx, x - (ox3 + gw), th);
            } else {
                lemma_axis_gap(row, row3, sy, gh, s, cy, dy, y - (oy3 + gh), th);
            }
        }
    }
}

/// Every byte of a pixel in the block of cell `(cx, cy)` of glyph `i` holds
/// that cell's color: no later rectangle is painted over the block.
pub proof fn lemma_cell_pixel(
    p: GlyphProfile,
    ps: Seq<GridView>,
    lo: LayoutOptions,
    w: u32,
    h: u32,
    os: Seq<(u32, u32)>,
    i: int,
    cx: int,
    cy: int,
    dx: int,
    dy: int,
    j: int,
)
    requires
        p.width >= 1,
        p.height >= 1,
        lo.valid(),
        1 <= ps.len() <= u32_max(),
        image_size_spec(p, ps.len() as usize, lo) == Ok::<(u32, u32), GlyphixError>((w, h)),
        origins_spec(p, ps.len(), ps.len() as usize, lo) == Ok::<Seq<(u32, u32)>, GlyphixError>(os),
        0 <= i < ps.len(),
        0 <= cx < p.width,
        0 <= cy < p.height,
        0 <= dx < lo.cell_scale,
        0 <= dy < lo.cell_scale,
        0 <= j < 4,
    ensures
        os[i].0 + cx * lo.cell_scale + dx < w,
        os[i].1 + cy * lo.cell_scale + dy < h,
        paint_all(blank_canvas((w * h * 4) as nat), w, render_rects(p, ps, lo, w, h, os))[pixel_offset(
            w as int,
            os[i].0 + cx * lo.cell_scale + dx,
            os[i].1 + cy * lo.cell_scale + dy,
        ) + j] == rect_byte(cell_rect(p, ps[i], os[i].0, os[i].1, lo.cell_scale, cx, cy), j),
{
    let n = ps.len();
    let s = lo.cell_scale as int;
    let pw = p.width as int;
    let ph = p.height as int;
    let c = p.cells() as int;
    let gw = pw * s;
    let gh = ph * s;
    let sx = gw + lo.gap_x + lo.sep();
    let sy = gh + lo.gap_y + lo.sep();
    lemma_origins_len(p, n, n as usize, lo, os);
    lemma_origin_of_origins(p, n, n as usize, lo, os, i as nat);
    let ox = os[i].0;
    let oy = os[i].1;
    lemma_origin_form(p, i as usize, n as usize, lo, ox, oy);
    lemma_tile_in_image(p, n as usize, lo, w, h, i as usize, ox, oy);
    let col = cell_of(lo.layout, i as usize).0 as int;
    let row = cell_of(lo.layout, i as usize).1 as int;
    assert(cx * s + s <= gw) by (nonlinear_arith)
        requires
            cx + 1 <= pw,
            s >= 1,
            gw == pw * s,
    ;
    assert(cy * s + s <= gh) by (nonlinear_arith)
        requires
            cy + 1 <= ph,
            s >= 1,
            gh == ph * s,
    ;
    let x = ox + cx * s + dx;
    let y = oy + cy * s + dy;
    let k = cy * pw + cx;
    assert(0 <= k < c) by (nonlinear_arith)
        requires
            k == cy * pw + cx,
            0 <= cx < pw,
            0 <= cy < ph,
            c == pw * ph,
    ;
    vstd::arithmetic::div_mod::lemma_fundamental_div_mod_converse(k, pw, cy, cx);
    let bg = PaintRect { x: 0, y: 0, w, h, r: 0, g: 0, b: 0 };
    let gr = glyphs_rects(p, ps, os, lo.cell_scale, n);
    let br = match lo.separator {
        Some(sep) => bars_rects(p, lo, sep, os, n as int, n),
        None => Seq::empty(),
    };
    let rs = render_rects(p, ps, lo, w, h, os);
    assert(rs == seq![bg] + gr + br);
    lemma_glyphs_rects_at(p, ps, os, lo.cell_scale, n, i, k);
    assert(i * c + k < n * c) by (nonlinear_arith)
        requires
            0 <= i < n,
            0 <= k < c,
    ;
    assert(i * c >= 0) by (nonlinear_arith)
        requires
            0 <= i,
            0 <= c,
    ;
    let t = 1 + i * c + k;
    assert(rs[t] == gr[i * c + k]);
    let rect = cell_rect(p, ps[i], ox, oy, lo.cell_scale, cx, cy);
    assert(rs[t] == rect);
    assert(covers(rect, x, y));
    if lo.separator is Some {
        lemma_cell_clear_of_bars(p, n, lo, lo.separator->Some_0, w, h, os, i, cx, cy, dx, dy);
        lemma_bars_clear(p, lo, lo.separator->Some_0, os, n as int, n, x, y);
    }
    assert forall|u: int| t < u < rs.len() implies !covers(#[trigger] rs[u], x, y) by {
        if u <= n * c {
            let u2 = u - 1;
            vstd::arithmetic::div_mod::lemma_fundamental_div_mod(u2, c);
            let i2 = u2 / c;
            let k2 = u2 % c;
            assert(0 <= i2 < n) by (nonlinear_arith)
                requires
                    u2 == c * i2 + k2,
                    0 <= k2 < c,
                    0 <= u2 < n * c,
            ;
            lemma_glyphs_rects_at(p, ps, os, lo.cell_scale, n, i2, k2);
            assert(c * i2 == i2 * c) by (nonlinear_arith);
            assert(rs[u] == gr[u2]);
            vstd::arithmetic::div_mod::lemma_fundamental_div_mod(k2, pw);
            let cx2 = k2 % pw;
            let cy2 = k2 / pw;
            assert(0 <= cy2 < ph) by (nonlinear_arith)
                requires
                    k2 == pw * cy2 + cx2,
                    0 <= cx2 < pw,
                    0 <= k2 < c,
                    c == pw * ph,
            ;
            lemma_origin_of_origins(p, n, n as usize, lo, os, i2 as nat);
            let ox2 = os[i2].0;
            let oy2 = os[i2].1;
            lemma_origin_form(p, i2 as usize, n as usize, lo, ox2, oy2);
            lemma_tile_in_image(p, n as usize, lo, w, h, i2 as usize, ox2, oy2);
            let col2 = cell_of(lo.layout, i2 as usize).0 as int;
            let row2 = cell_of(lo.layout, i2 as usize).1 as int;
            assert(cx2 * s + s <= gw) by (nonlinear_arith)
                requires
                    cx2 + 1 <= pw,
                    s >= 1,
                    gw == pw * s,
            ;
            assert(cy2 * s + s <= gh) by (nonlinear_arith)
                requires
                    cy2 + 1 <= ph,
                    s >= 1,
                    gh == ph * s,
            ;
            if covers(rs[u], x, y) {
                lemma_axis_cells(col, col2, sx, gw, s, cx, cx2, dx, x - (ox2 + cx2 * s));
                lemma_axis_cells(row, row2, sy, gh, s, cy, cy2, dy, y - (oy2 + cy2 * s));
                lemma_cell_of_injective(lo.layout, i as usize, i2 as usize);
                assert(k2 == cy2 * pw + cx2) by (nonlinear_arith)
                    requires
                        k2 == pw * cy2 + cx2,
                ;
            }
        } else {
            assert(rs[u] == br[u - 1 - n * c]);
        }
    }
    lemma_pixel_in_canvas(w as int, h as int, x, y);
    assert(blank_canvas((w * h * 4) as nat).len() == w * h * 4);
    lemma_paint_all_last(blank_canvas((w * h * 4) as nat), w, rs, t, x, y, j);
}

/// The block of cell `(cx, cy)` of glyph `i` is uniform and reads back as that
/// cell's color index.
pub proof fn lemma_cell_block(
    p: GlyphProfile,
    ps: Seq<GridView>,
    lo: LayoutOptions,
    img: RasterView,
    os: Seq<(u32, u32)>,
    i: int,
    cx: int,
    cy: int,
)
    requires
        p.wf(),
        p.palette_size <= 0x0100_0000,
        lo.valid(),
        1 <= ps.len() <= u32_max(),
        image_size_spec(p, ps.len() as usize, lo) == Ok::<(u32, u32), GlyphixError>((img.width, img.height)),
        origins_spec(p, ps.len(), ps.len() as usize, lo) == Ok::<Seq<(u32, u32)>, GlyphixError>(os),
        img.pixels == paint_all(
            blank_canvas((img.width * img.height * 4) as nat),
            img.width,
            render_rects(p, ps, lo, img.width, img.height, os),
        ),
        0 <= i < ps.len(),
        0 <= cx < p.width,
        0 <= cy < p.height,
        ps[i].at(cx, cy) < p.palette_size,
    ensures
        block_index(p, img, os[i].0 + cx * lo.cell_scale, os[i].1 + cy * lo.cell_scale, lo.cell_scale as int)
            == Ok::<u32, GlyphixError>(ps[i].at(cx, cy)),
{
    let s = lo.cell_scale as int;
    let w = img.width;
    let h = img.height;
    let x0 = os[i].0 + cx * s;
    let y0 = os[i].1 + cy * s;
    let idx = ps[i].at(cx, cy);
    let col = rgb_spec(p.palette_size, idx);
    let rect = cell_rect(p, ps[i], os[i].0, os[i].1, lo.cell_scale, cx, cy);
    assert(col.len() == 3);
    assert forall|dx: int, dy: int| 0 <= dx < s && 0 <= dy < s implies #[trigger] img.rgba_at(x0 + dx, y0 + dy).take(3) == col by {
        lemma_cell_pixel(p, ps, lo, w, h, os, i, cx, cy, dx, dy, 0);
        lemma_cell_pixel(p, ps, lo, w, h, os, i, cx, cy, dx, dy, 1);
        lemma_cell_pixel(p, ps, lo, w, h, os, i, cx, cy, dx, dy, 2);
        lemma_pixel_in_canvas(w as int, h as int, x0 + dx, y0 + dy);
        let off = pixel_offset(w as int, x0 + dx, y0 + dy);
        let q = img.rgba_at(x0 + dx, y0 + dy).take(3);
        lemma_paint_all_len(blank_canvas((w * h * 4) as nat), w, render_rects(p, ps, lo, w, h, os));
        assert(img.pixels.len() == w * h * 4);
        assert(q.len() == 3);
        assert(q[0] == img.pixels[off + 0]);
        assert(q[1] == img.pixels[off + 1]);
        assert(q[2] == img.pixels[off + 2]);
        assert(rect_byte(rect, 0) == col[0]);
        assert(rect_byte(rect, 1) == col[1]);
        assert(rect_byte(rect, 2) == col[2]);
        assert(q =~= col);
    }
    assert(img.rgba_at(x0 + 0, y0 + 0).take(3) == col);
    assert(block_uniform(img, x0, y0, s));
    crate::profile::GlyphProfile::lemma_wf(p);
    lemma_color_roundtrip(p.palette_size, idx);
}

/// Glyphs that pass the profile check fit the profile.
pub proof fn lemma_checked_fit(p: GlyphProfile, gs: Seq<GridView>)
    requires
        glyphs_check(p, gs) is Ok,
        forall|i: int| 0 <= i < gs.len() ==> (#[trigger] gs[i]).wf(),
    ensures
        forall|i: int| 0 <= i < gs.len() ==> fits_profile(#[trigger] gs[i], p),
    decreases gs.len(),
{
    if gs.len() > 0 {
        lemma_checked_fit(p, gs.drop_first());
        assert(profile_check(gs[0], p) is Ok);
        lemma_palette_check_ok(gs[0].cells, p.palette_size);
        assert forall|i: int| 0 <= i < gs.len() implies fits_profile(#[trigger] gs[i], p) by {
            if i > 0 {
                assert(gs[i] == gs.drop_first()[i - 1]);
            }
        }
    }
}

/// The glyphs drawn for a composition fit the profile, blank padding included.
pub proof fn lemma_prepared_fit(p: GlyphProfile, gs: Seq<GridView>, o: RenderOptions)
    requires
        p.wf(),
        forall|i: int| 0 <= i < gs.len() ==> (#[trigger] gs[i]).wf(),
        prepare_spec(p, gs, o) is Ok,
    ensures
        forall|i: int| 0 <= i < prepare_spec(p, gs, o)->Ok_0.len() ==> fits_profile(#[trigger] prepare_spec(p, gs, o)->Ok_0[i], p),
        prepare_spec(p, gs, o)->Ok_0.len() >= 1,
{
    lemma_checked_fit(p, gs);
    let ps = prepare_spec(p, gs, o)->Ok_0;
    let z = GridView::zeros(p.width, p.height);
    assert(fits_profile(z, p));
}

/// Reading back `n` glyphs recomputes, in `u32`, the span of whole steps along
/// the axis that the glyph count is read from: one step per glyph of a strip,
/// one step per row of a grid.
pub open spec fn readback_fits(p: GlyphProfile, o: RenderOptions, n: nat) -> bool {
    let lo = o.layout_spec();
    match lo.layout {
        GlyphLayout::HorizontalStrip => n * (p.width * lo.cell_scale + lo.gap_x + lo.sep()) <= u32_max(),
        GlyphLayout::Grid { columns } => lo.layout.rows_spec(n as usize) * (p.height * lo.cell_scale + lo.gap_y
            + lo.sep()) <= u32_max(),
    }
}

/// Padding `len` glyphs to whole rows of `columns` gives `q` full rows, `q`
/// the rows that `len` glyphs start.
pub proof fn lemma_pad_rows(len: nat, columns: u32)
    requires
        1 <= len <= u32_max(),
        columns >= 1,
        ceil_div_u32(len as u32, columns) * columns <= u32_max(),
    ensures
        ceil_div_u32(len as u32, columns) >= 1,
        ceil_div_u32(len as u32, columns) * columns >= len,
        ceil_div_u32((ceil_div_u32(len as u32, columns) * columns) as u32, columns) == ceil_div_u32(len as u32, columns),
{
    let c = columns as int;
    let l = len as int;
    assert(len as u32 == len);
    vstd::arithmetic::div_mod::lemma_fundamental_div_mod(l, c);
    let d = l / c;
    let r = l % c;
    assert(d + (if r == 0 { 0int } else { 1int }) <= l) by (nonlinear_arith)
        requires
            l == c * d + r,
            0 <= r < c,
            c >= 1,
            d >= 0,
    ;
    assert((len as u32) / columns == d && (len as u32) % columns == r);
    let q = ceil_div_u32(len as u32, columns) as int;
    assert(q == d + if r == 0 { 0int } else { 1int });
    assert(q >= 1 && q * c >= l) by (nonlinear_arith)
        requires
            l == c * d + r,
            0 <= r < c,
            q == d + if r == 0 { 0int } else { 1int },
            l >= 1,
            c >= 1,
            d >= 0,
    ;
    let t = q * c;
    assert(t as u32 == t);
    vstd::arithmetic::div_mod::lemma_fundamental_div_mod_converse(t, c, q, 0);
}

/// Parsing the image that rendering draws for a composition gives back exactly
/// the glyphs it drew: the composition's own glyphs, blank-padded to whole rows
/// in a grid.
pub proof fn lemma_parse_render(p: GlyphProfile, gs: Seq<GridView>, o: RenderOptions)
    requires
        p.wf(),
        p.palette_size <= 0x0100_0000,
        forall|i: int| 0 <= i < gs.len() ==> (#[trigger] gs[i]).wf(),
        render_fits(p, gs, o),
        render_frame(p, gs, o) is Ok,
        prepare_spec(p, gs, o)->Ok_0.len() <= p.max_glyphs,
        readback_fits(p, o, prepare_spec(p, gs, o)->Ok_0.len()),
    ensures
        ({
            let (ps, w, h, os) = render_frame(p, gs, o)->Ok_0;
            parse_spec(p, drawn_raster(p, ps, o.layout_spec(), w, h, os), o) == prepare_spec(p, gs, o)
        }),
{
    let lo = o.layout_spec();
    let frame = render_frame(p, gs, o);
    assert(frame is Ok);
    let ps = frame->Ok_0.0;
    let w = frame->Ok_0.1;
    let h = frame->Ok_0.2;
    let os = frame->Ok_0.3;
    let img = drawn_raster(p, ps, lo, w, h, os);
    assert(lo.valid());
    assert(prepare_spec(p, gs, o) == Ok::<Seq<GridView>, GlyphixError>(ps));
    lemma_prepared_fit(p, gs, o);
    p.lemma_wf();
    let n = ps.len();
    let pw = p.width as int;
    let ph = p.height as int;
    let c = p.cells() as int;
    assert(img.width == w && img.height == h);
    match lo.layout {
        GlyphLayout::HorizontalStrip => {
            assert(n == gs.len());
        },
        GlyphLayout::Grid { columns } => {
            lemma_pad_rows(gs.len(), columns);
            assert(n == ceil_div_u32(gs.len() as u32, columns) * columns);
        },
    }
    assert(1 <= n <= u32_max());
    lemma_origins_len(p, n, n as usize, lo, os);
    lemma_origin_of_origins(p, n, n as usize, lo, os, 0);
    lemma_origin_form(p, 0, n as usize, lo, os[0].0, os[0].1);
    match lo.layout {
        GlyphLayout::HorizontalStrip => {
            lemma_infer_strip_roundtrip(p, n as usize, lo, w, h);
        },
        GlyphLayout::Grid { columns } => {
            let rows = ceil_div_u32(gs.len() as u32, columns);
            assert(lo.layout.rows_spec(n as usize) == rows);
            assert(n == rows * columns);
            lemma_infer_grid_roundtrip(p, rows, lo, w, h);
        },
    }
    let s = lo.cell_scale;
    let rs = blocks_spec(p, img, s, os);
    assert(rs.len() == n * c);
    assert forall|jj: int| 0 <= jj < rs.len() implies (#[trigger] rs[jj]) == Ok::<u32, GlyphixError>(ps[jj / c].cells[jj % c]) by {
        vstd::arithmetic::div_mod::lemma_fundamental_div_mod(jj, c);
        let i = jj / c;
        let k = jj % c;
        assert(0 <= i < n) by (nonlinear_arith)
            requires
                jj == c * i + k,
                0 <= k < c,
                0 <= jj < n * c,
        ;
        vstd::arithmetic::div_mod::lemma_fundamental_div_mod(k, pw);
        let cx = k % pw;
        let cy = k / pw;
        assert(0 <= cy < ph) by (nonlinear_arith)
            requires
                k == pw * cy + cx,
                0 <= cx < pw,
                0 <= k < c,
                c == pw * ph,
        ;
        assert(fits_profile(ps[i], p));
        assert(cy * pw + cx == k) by (nonlinear_arith)
            requires
                k == pw * cy + cx,
        ;
        assert(ps[i].at(cx, cy) == ps[i].cells[k]);
        lemma_cell_block(p, ps, lo, img, os, i, cx, cy);
    }
    lemma_first_err_none(rs);
    let got = read_blocks_spec(p, img, s, os);
    assert(got is Ok);
    let gv = got->Ok_0;
    assert forall|i: int| 0 <= i < n implies #[trigger] gv[i] == ps[i] by {
        assert(fits_profile(ps[i], p));
        assert forall|k: int| 0 <= k < c implies #[trigger] gv[i].cells[k] == ps[i].cells[k] by {
            let jj = i * c + k;
            assert(0 <= jj < n * c) by (nonlinear_arith)
                requires
                    jj == i * c + k,
                    0 <= i < n,
                    0 <= k < c,
            ;
            vstd::arithmetic::div_mod::lemma_fundamental_div_mod_converse(jj, c, i, k);
            assert(rs[jj] == Ok::<u32, GlyphixError>(ps[i].cells[k]));
        }
        assert(gv[i].cells =~= ps[i].cells);
    }
    assert(gv =~= ps);
    assert(parse_spec(p, img, o) == got);
}

/// Glyphs that all fit the profile pass the profile check.
pub proof fn lemma_fit_checked(p: GlyphProfile, gs: Seq<GridView>)
    requires
        forall|i: int| 0 <= i < gs.len() ==> fits_profile(#[trigger] gs[i], p),
    ensures
        glyphs_check(p, gs) is Ok,
    decreases gs.len(),
{
    if gs.len() > 0 {
        assert forall|i: int| 0 <= i < gs.drop_first().len() implies fits_profile(#[trigger] gs.drop_first()[i], p) by {
            assert(gs.drop_first()[i] == gs[i + 1]);
        }
        lemma_fit_checked(p, gs.drop_first());
        assert(fits_profile(gs[0], p));
        lemma_palette_check_ok(gs[0].cells, p.palette_size);
    }
}

/// The k-bit digits of zero are all clear.
pub proof fn lemma_bits_msb_zero(k: nat)
    ensures
        forall|j: int| 0 <= j < k ==> !(#[trigger] bits_msb(0, k)[j]),
    decreases k,
{
    crate::digits::lemma_bits_msb_len(0, k);
    if k > 0 {
        lemma_bits_msb_zero((k - 1) as nat);
        crate::digits::lemma_bits_msb_len(0, (k - 1) as nat);
        assert(bits_msb(0, k) == bits_msb(0, (k - 1) as nat).push(false));
        assert forall|j: int| 0 <= j < k implies !(#[trigger] bits_msb(0, k)[j]) by {
            if j < k - 1 {
                assert(bits_msb(0, k)[j] == bits_msb(0, (k - 1) as nat)[j]);
            }
        }
    }
}

/// Appending blank glyphs appends zero bits to the stream.
pub proof fn lemma_stream_blank_tail(p: GlyphProfile, gs: Seq<GridView>, k: nat)
    requires
        p.wf(),
    ensures
        stream_of_glyphs(p, gs + Seq::new(k, |i: int| GridView::zeros(p.width, p.height)))
            == stream_of_glyphs(p, gs) + zero_bits(k * p.bpg()),
    decreases k,
{
    let z = GridView::zeros(p.width, p.height);
    let tail = Seq::new(k, |i: int| z);
    if k == 0 {
        assert(gs + tail =~= gs);
        assert(zero_bits(0) =~= Seq::<bool>::empty());
        assert(k * p.bpg() == 0) by (nonlinear_arith)
            requires
                k == 0,
        ;
    } else {
        let front = Seq::new((k - 1) as nat, |i: int| z);
        lemma_stream_blank_tail(p, gs, (k - 1) as nat);
        assert(gs + tail =~= (gs + front).push(z));
        lemma_stream_of_glyphs_push(p, gs + front, z);
        p.lemma_wf();
        lemma_bits_msb_zero(p.bpc());
        let zs = stream_of_glyph(p, z);
        assert forall|j: int| 0 <= j < zs.len() implies !(#[trigger] zs[j]) by {
            let kk = p.bpc() as int;
            let c = p.cells() as int;
            vstd::arithmetic::div_mod::lemma_fundamental_div_mod(j, kk);
            assert(0 <= j / kk < c) by (nonlinear_arith)
                requires
                    j == kk * (j / kk) + j % kk,
                    0 <= j % kk < kk,
                    0 <= j < c * kk,
                    kk >= 1,
            ;
            assert(z.cells.len() == c);
            assert(z.place(j / kk) == 0);
            crate::digits::lemma_bits_msb_len(0, p.bpc());
        }
        assert((k - 1) * p.bpg() + p.bpg() == k * p.bpg()) by (nonlinear_arith);
        assert(zero_bits((k - 1) as nat * p.bpg()) + zs =~= zero_bits(k * p.bpg()));
    }
}

/// The glyphs of an encoded payload: in count, passing the profile check, and
/// carrying the frame followed by zero bits.
pub proof fn lemma_encoded_frames(p: GlyphProfile, payload: Seq<u8>, o: EncodeOptions)
    requires
        p.wf(),
        o.wf(),
        encode_spec(p, payload, o) is Ok,
    ensures
        1 <= encode_spec(p, payload, o)->Ok_0.len() <= p.max_glyphs,
        glyphs_check(p, encode_spec(p, payload, o)->Ok_0) is Ok,
        frames_to(stream_of_glyphs(p, encode_spec(p, payload, o)->Ok_0), payload, o),
{
    p.lemma_wf();
    let n = glyphs_needed_spec(p, payload.len(), o);
    let f = frame_spec(payload, o);
    lemma_frame_len(payload, o);
    lemma_ceil_div(need_bits_spec(payload.len(), o), p.bpg());
    let padded = pad_bits(crate::digits::bytes_to_bits_spec(f), n * p.bpg());
    lemma_glyphs_stream_roundtrip(p, padded, n);
    lemma_stream_glyphs_valid(p, padded, n);
}

/// Decoding glyphs whose stream is a frame without error correction, followed by
/// zero bits, gives the framed payload.
pub proof fn lemma_decode_framed(p: GlyphProfile, gs: Seq<GridView>, payload: Seq<u8>, o: EncodeOptions)
    requires
        1 <= gs.len() <= p.max_glyphs,
        glyphs_check(p, gs) is Ok,
        o.ecc is Off,
        frames_to(stream_of_glyphs(p, gs), payload, o),
    ensures
        decode_spec(p, gs) == Ok::<Seq<u8>, GlyphixError>(payload),
{
    lemma_v2_roundtrip(stream_of_glyphs(p, gs), payload, o);
}

/// A payload encoded and drawn as an image, in a strip or a blank-padded grid,
/// reads back from that image as glyphs that carry the payload's frame followed
/// by zero bits, within the glyph cap and passing the profile check, so that
/// `decode` gives the payload back under any valid options. Without error
/// correction the image's bytes (or PNG bytes that decode to them) decode to the
/// payload outright.
pub proof fn lemma_payload_readback(p: GlyphProfile, payload: Seq<u8>, eo: EncodeOptions, o: RenderOptions, png: Seq<u8>)
    requires
        p.wf(),
        p.palette_size <= 0x0100_0000,
        eo.wf(),
        encode_spec(p, payload, eo) is Ok,
        render_fits(p, encode_spec(p, payload, eo)->Ok_0, o),
        render_frame(p, encode_spec(p, payload, eo)->Ok_0, o) is Ok,
        prepare_spec(p, encode_spec(p, payload, eo)->Ok_0, o)->Ok_0.len() <= p.max_glyphs,
        readback_fits(p, o, prepare_spec(p, encode_spec(p, payload, eo)->Ok_0, o)->Ok_0.len()),
    ensures
        ({
            let (ps, w, h, os) = render_frame(p, encode_spec(p, payload, eo)->Ok_0, o)->Ok_0;
            let img = drawn_raster(p, ps, o.layout_spec(), w, h, os);
            &&& parse_spec(p, img, o) == Ok::<Seq<GridView>, GlyphixError>(ps)
            &&& ps.len() <= p.max_glyphs
            &&& glyphs_check(p, ps) is Ok
            &&& frames_to(stream_of_glyphs(p, ps), payload, eo)
            &&& eo.ecc is Off ==> decode_raster_spec(p, img, o) == Ok::<Seq<u8>, GlyphixError>(payload)
            &&& eo.ecc is Off && image_decoding(png) == Ok::<(u32, u32, Seq<u8>), Seq<char>>((w, h, img.pixels))
                ==> decode_png_spec(p, png, o) == Ok::<Seq<u8>, GlyphixError>(payload)
        }),
{
    let gs = encode_spec(p, payload, eo)->Ok_0;
    lemma_encoded_frames(p, payload, eo);
    lemma_checked_fit(p, gs);
    let lo = o.layout_spec();
    let (ps, w, h, os) = render_frame(p, gs, o)->Ok_0;
    let img = drawn_raster(p, ps, lo, w, h, os);
    lemma_paint_all_len(blank_canvas((w * h * 4) as nat), w, render_rects(p, ps, lo, w, h, os));
    assert(img.wf());
    lemma_parse_render(p, gs, o);
    lemma_prepared_fit(p, gs, o);
    assert(prepare_spec(p, gs, o) == Ok::<Seq<GridView>, GlyphixError>(ps));
    let z = GridView::zeros(p.width, p.height);
    let k = (ps.len() - gs.len()) as nat;
    assert(ps =~= gs + Seq::new(k, |i: int| z));
    lemma_stream_blank_tail(p, gs, k);
    let bits = stream_of_glyphs(p, gs);
    let f = frame_spec(payload, eo);
    assert(bits == crate::digits::bytes_to_bits_spec(f) + zero_bits((bits.len() - 8 * f.len()) as nat));
    assert(stream_of_glyphs(p, ps) =~= crate::digits::bytes_to_bits_spec(f) + zero_bits(
        (stream_of_glyphs(p, ps).len() - 8 * f.len()) as nat,
    ));
    lemma_fit_checked(p, ps);
    if eo.ecc is Off {
        lemma_decode_framed(p, ps, payload, eo);
        assert(decode_raster_spec(p, img, o) == Ok::<Seq<u8>, GlyphixError>(payload));
    }
}

/// Index of the last rectangle of `rs[0..n]` that covers `(x, y)`, or -1.
pub open spec fn last_cover(rs: Seq<PaintRect>, n: int, x: int, y: int) -> int
    decreases n,
{
    if n <= 0 {
        -1
    } else if covers(rs[n - 1], x, y) {
        n - 1
    } else {
        last_cover(rs, n - 1, x, y)
    }
}

proof fn lemma_last_cover(rs: Seq<PaintRect>, n: int, x: int, y: int)
    requires
        1 <= n <= rs.len(),
        covers(rs[0], x, y),
    ensures
        0 <= last_cover(rs, n, x, y) < n,
        covers(rs[last_cover(rs, n, x, y)], x, y),
        forall|u: int| last_cover(rs, n, x, y) < u < n ==> !covers(#[trigger] rs[u], x, y),
    decreases n,
{
    if n > 1 && !covers(rs[n - 1], x, y) {
        lemma_last_cover(rs, n - 1, x, y);
    }
}

/// Every pixel of a rendered image is opaque: its fourth byte is 255, wherever
/// the glyphs, separators and background put their colours.
pub proof fn lemma_render_opaque(
    p: GlyphProfile,
    ps: Seq<GridView>,
    lo: LayoutOptions,
    w: u32,
    h: u32,
    os: Seq<(u32, u32)>,
    x: int,
    y: int,
)
    requires
        0 <= x < w,
        0 <= y < h,
    ensures
        drawn_raster(p, ps, lo, w, h, os).rgba_at(x, y)[3] == 255,
{
    let rs = render_rects(p, ps, lo, w, h, os);
    let blank = blank_canvas((w * h * 4) as nat);
    lemma_pixel_in_canvas(w as int, h as int, x, y);
    assert(covers(rs[0], x, y));
    lemma_last_cover(rs, rs.len() as int, x, y);
    let t = last_cover(rs, rs.len() as int, x, y);
    lemma_paint_all_last(blank, w, rs, t, x, y, 3);
    let px = paint_all(blank, w, rs);
    lemma_paint_all_len(blank, w, rs);
    let o = pixel_offset(w as int, x, y);
    assert(drawn_raster(p, ps, lo, w, h, os).rgba_at(x, y)[3] == px[o + 3]);
}

} // verus!
