//! Render glyphs to exact bitmaps / SVG and parse **clean** rasters back.
//!
//! Each logical cell is drawn as an \(S \times S\) block of device pixels
//! (`RenderOptions::cell_scale`). No anti-aliasing: canonical images are
//! piecewise-constant so lossless re-parse is possible. Geometry (strip or grid,
//! margin, gaps, separator bars) lives in the layout module.
//!
//! A rendered image is described as a list of filled rectangles painted in order
//! over a zeroed canvas: the black background, every cell block of every glyph,
//! then the separator bars.

use vstd::prelude::*;
use crate::codec::{decode, decode_spec, glyphs_check, encode_spec, encode_with, frame_fits, glyphs_needed_spec, EncodeOptions};
use crate::color::{index_to_rgb, rgb_spec};
use crate::error::{bytes_agree, lemma_message, message, GlyphixError, Result, result_agrees};
use crate::grid::{Grid, GridView, views};
use crate::layout::{
    columns_error, glyph_origin, image_size, image_size_spec, origin_spec, origins_spec, pad_spec, scale_error, u32_max,
    GlyphLayout, LayoutOptions, Separator,
};
use crate::profile::GlyphProfile;
use crate::text::{decimal, hex2, push_decimal, push_hex2};

verus! {

broadcast use crate::error::lemma_message;

/// Options for raster / SVG rendering (wraps [`LayoutOptions`]).
#[derive(Debug, Clone, Copy, PartialEq, Eq)]
pub struct RenderOptions {
    /// Device pixels per logical cell edge (\(S \ge 1\)).
    pub cell_scale: u32,
    /// Quiet margin around the whole composition (device pixels).
    pub margin: u32,
    /// Horizontal gap between glyphs (device pixels, not including separator).
    pub gap: u32,
    /// Vertical gap between rows; if `None`, uses `gap`.
    pub gap_y: Option<u32>,
    /// Arrangement of glyphs.
    pub layout: GlyphLayout,
    /// Optional separator bars between adjacent glyphs.
    pub separator: Option<Separator>,
}

impl Default for RenderOptions {
    fn default() -> (o: Self)
        ensures
            o == RenderOptions::default_spec(),
    {
        RenderOptions {
            cell_scale: 1,
            margin: 0,
            gap: 0,
            gap_y: None,
            layout: GlyphLayout::HorizontalStrip,
            separator: None,
        }
    }
}

impl RenderOptions {
    /// The default options.
    pub open spec fn default_spec() -> RenderOptions {
        RenderOptions {
            cell_scale: 1,
            margin: 0,
            gap: 0,
            gap_y: None,
            layout: GlyphLayout::HorizontalStrip,
            separator: None,
        }
    }

    /// The layout geometry these options describe.
    pub open spec fn layout_spec(self) -> LayoutOptions {
        LayoutOptions {
            cell_scale: self.cell_scale,
            margin: self.margin,
            gap_x: self.gap,
            gap_y: match self.gap_y {
                Some(g) => g,
                None => self.gap,
            },
            layout: self.layout,
            separator: self.separator,
        }
    }

    /// Build options with cell scale \(S\) (other fields default).
    pub fn scale(cell_scale: u32) -> (r: Result<Self>)
        ensures
            r is Ok <==> cell_scale >= 1,
            r matches Ok(o) ==> o == (RenderOptions { cell_scale, ..RenderOptions::default_spec() }),
            r matches Err(e) ==> e.agrees(scale_error()),
    {
        let mut o = Self::default();
        o.cell_scale = cell_scale;
        o.validate()?;
        Ok(o)
    }

    /// Horizontal strip convenience.
    pub fn strip(cell_scale: u32, margin: u32, gap: u32) -> (r: Result<Self>)
        ensures
            r is Ok <==> cell_scale >= 1,
            r matches Ok(o) ==> o == (RenderOptions { cell_scale, margin, gap, ..RenderOptions::default_spec() }),
            r matches Err(e) ==> e.agrees(scale_error()),
    {
        let mut o = Self::default();
        o.cell_scale = cell_scale;
        o.margin = margin;
        o.gap = gap;
        o.validate()?;
        Ok(o)
    }

    /// Grid convenience (`columns` per row).
    pub fn grid(cell_scale: u32, columns: u32, margin: u32, gap: u32) -> (r: Result<Self>)
        ensures
            r is Ok <==> cell_scale >= 1 && columns >= 1,
            r matches Ok(o) ==> o == (RenderOptions {
                cell_scale,
                margin,
                gap,
                gap_y: None,
                layout: GlyphLayout::Grid { columns },
                separator: None,
            }),
            r matches Err(e) ==> e.agrees(if columns == 0 { columns_error() } else { scale_error() }),
    {
        let mut o = Self::default();
        o.cell_scale = cell_scale;
        o.margin = margin;
        o.gap = gap;
        o.layout = GlyphLayout::grid(columns)?;
        o.validate()?;
        Ok(o)
    }

    /// Convert to pure layout geometry.
    pub fn to_layout(&self) -> (l: LayoutOptions)
        ensures
            l == self.layout_spec(),
    {
        LayoutOptions {
            cell_scale: self.cell_scale,
            margin: self.margin,
            gap_x: self.gap,
            gap_y: match self.gap_y {
                Some(g) => g,
                None => self.gap,
            },
            layout: self.layout,
            separator: self.separator,
        }
    }

    /// Validate scale and layout.
    pub fn validate(&self) -> (r: Result<()>)
        ensures
            r is Ok <==> self.layout_spec().valid(),
            result_agrees(r, self.layout_spec().validate_spec()),
    {
        self.to_layout().validate()
    }
}

/// In-memory RGBA8 image (row-major, 4 bytes per pixel).
#[derive(Debug, Clone, PartialEq, Eq)]
pub struct RgbaImage {
    pub width: u32,
    pub height: u32,
    /// Length = width * height * 4, order RGBA.
    pub pixels: Vec<u8>,
}

/// Byte offset of pixel `(x, y)` in a row-major RGBA canvas of the given width.
pub open spec fn pixel_offset(width: int, x: int, y: int) -> int {
    (y * width + x) * 4
}

/// The mathematical content of an RGBA image: its size and its bytes.
pub struct RasterView {
    pub width: u32,
    pub height: u32,
    pub pixels: Seq<u8>,
}

impl RasterView {
    /// One pixel of four bytes for every coordinate.
    pub open spec fn wf(self) -> bool {
        self.pixels.len() == self.width * self.height * 4
    }

    /// The four bytes of pixel `(x, y)`.
    pub open spec fn rgba_at(self, x: int, y: int) -> Seq<u8> {
        self.pixels.subrange(pixel_offset(self.width as int, x, y), pixel_offset(self.width as int, x, y) + 4)
    }
}

impl View for RgbaImage {
    type V = RasterView;

    open spec fn view(&self) -> RasterView {
        RasterView { width: self.width, height: self.height, pixels: self.pixels@ }
    }
}

impl RgbaImage {
    /// One pixel of four bytes for every coordinate.
    pub open spec fn wf(self) -> bool {
        self@.wf()
    }

    /// Pixel at \((x,y)\) as RGBA.
    pub fn get_rgba(&self, x: u32, y: u32) -> (r: Result<[u8; 4]>)
        requires
            self.wf(),
            x < self.width && y < self.height ==> pixel_offset(self.width as int, x as int, y as int) <= u32_max(),
        ensures
            r is Ok <==> x < self.width && y < self.height,
            r matches Ok(c) ==> c@ == self@.rgba_at(x as int, y as int),
            r matches Err(e) ==> e == (GlyphixError::OutOfBounds { x, y, width: self.width, height: self.height }),
    {
        if x >= self.width || y >= self.height {
            return Err(GlyphixError::OutOfBounds { x, y, width: self.width, height: self.height });
        }
        proof {
            lemma_pixel_in_canvas(self.width as int, self.height as int, x as int, y as int);
        }
        let i = ((y * self.width + x) * 4) as usize;
        let c: [u8; 4] = [self.pixels[i], self.pixels[i + 1], self.pixels[i + 2], self.pixels[i + 3]];
        assert(c@ =~= self@.rgba_at(x as int, y as int));
        Ok(c)
    }

    /// RGB only (alpha ignored).
    pub fn get_rgb(&self, x: u32, y: u32) -> (r: Result<[u8; 3]>)
        requires
            self.wf(),
            x < self.width && y < self.height ==> pixel_offset(self.width as int, x as int, y as int) <= u32_max(),
        ensures
            r is Ok <==> x < self.width && y < self.height,
            r matches Ok(c) ==> c@ == self@.rgba_at(x as int, y as int).take(3),
            r matches Err(e) ==> e == (GlyphixError::OutOfBounds { x, y, width: self.width, height: self.height }),
    {
        let c = self.get_rgba(x, y)?;
        let rgb: [u8; 3] = [c[0], c[1], c[2]];
        assert(rgb@ =~= self@.rgba_at(x as int, y as int).take(3));
        Ok(rgb)
    }
}

/// A pixel inside a `width × height` canvas has its four bytes inside the buffer.
pub proof fn lemma_pixel_in_canvas(width: int, height: int, x: int, y: int)
    requires
        0 <= x < width,
        0 <= y < height,
    ensures
        0 <= pixel_offset(width, x, y),
        pixel_offset(width, x, y) + 4 <= width * height * 4,
{
    assert(y * width + x + 1 <= width * height) by (nonlinear_arith)
        requires
            0 <= x < width,
            0 <= y < height,
    ;
    assert(0 <= y * width) by (nonlinear_arith)
        requires
            0 <= y,
            0 <= width,
    ;
}

/// The bytes of pixel `p = y * width + x` decode back to `(x, y)`.
pub proof fn lemma_pixel_coords(width: int, x: int, y: int, j: int)
    requires
        0 <= x < width,
        0 <= y,
        0 <= j < 4,
    ensures
        (pixel_offset(width, x, y) + j) / 4 == y * width + x,
        (pixel_offset(width, x, y) + j) % 4 == j,
        ((pixel_offset(width, x, y) + j) / 4) % width == x,
        ((pixel_offset(width, x, y) + j) / 4) / width == y,
{
    let p = y * width + x;
    vstd::arithmetic::div_mod::lemma_fundamental_div_mod_converse(p * 4 + j, 4, p, j);
    vstd::arithmetic::div_mod::lemma_fundamental_div_mod_converse(p, width, y, x);
}

/// Device size of one glyph tile (without margin/gap).
pub fn glyph_pixel_size(profile: &GlyphProfile, scale: u32) -> (r: Result<(u32, u32)>)
    ensures
        result_agrees(r, crate::layout::pixel_size_spec(*profile, scale)),
{
    crate::layout::glyph_pixel_size(profile, scale)
}

/// Full image dimensions for a glyph composition.
pub fn image_dimensions(profile: &GlyphProfile, glyph_count: usize, opts: &RenderOptions) -> (r: Result<(u32, u32)>)
    ensures
        result_agrees(r, image_size_spec(*profile, glyph_count, opts.layout_spec())),
{
    image_size(profile, glyph_count, &opts.to_layout())
}

/// A filled, opaque rectangle.
#[derive(Debug, Clone, Copy, PartialEq, Eq)]
pub struct PaintRect {
    pub x: u32,
    pub y: u32,
    pub w: u32,
    pub h: u32,
    pub r: u8,
    pub g: u8,
    pub b: u8,
}

/// The rectangle covers pixel `(x, y)`.
pub open spec fn covers(r: PaintRect, x: int, y: int) -> bool {
    r.x <= x < r.x + r.w && r.y <= y < r.y + r.h
}

/// Byte `j` of the rectangle's RGBA color.
pub open spec fn rect_byte(r: PaintRect, j: int) -> u8 {
    if j == 0 {
        r.r
    } else if j == 1 {
        r.g
    } else if j == 2 {
        r.b
    } else {
        255
    }
}

/// Column of the pixel holding byte `k`.
pub open spec fn byte_x(width: u32, k: int) -> int {
    (k / 4) % (width as int)
}

/// Row of the pixel holding byte `k`.
pub open spec fn byte_y(width: u32, k: int) -> int {
    (k / 4) / (width as int)
}

/// A canvas after painting `r` over it (clipped to the canvas).
pub open spec fn paint(buf: Seq<u8>, width: u32, r: PaintRect) -> Seq<u8> {
    Seq::new(buf.len(), |k: int| if covers(r, byte_x(width, k), byte_y(width, k)) { rect_byte(r, k % 4) } else { buf[k] })
}

/// A canvas after painting every rectangle of `rs` in order.
pub open spec fn paint_all(buf: Seq<u8>, width: u32, rs: Seq<PaintRect>) -> Seq<u8>
    decreases rs.len(),
{
    if rs.len() == 0 {
        buf
    } else {
        paint(paint_all(buf, width, rs.drop_last()), width, rs.last())
    }
}

pub proof fn lemma_paint_all_push(buf: Seq<u8>, width: u32, rs: Seq<PaintRect>, r: PaintRect)
    ensures
        paint_all(buf, width, rs.push(r)) == paint(paint_all(buf, width, rs), width, r),
{
    assert(rs.push(r).drop_last() =~= rs);
}

pub proof fn lemma_paint_all_len(buf: Seq<u8>, width: u32, rs: Seq<PaintRect>)
    ensures
        paint_all(buf, width, rs).len() == buf.len(),
    decreases rs.len(),
{
    if rs.len() > 0 {
        lemma_paint_all_len(buf, width, rs.drop_last());
    }
}

/// Write the four bytes of pixel `(x, y)`.
fn put_rgba(buf: &mut Vec<u8>, width: u32, height: u32, x: u32, y: u32, rgba: [u8; 4])
    requires
        old(buf)@.len() == width * height * 4,
        width * height * 4 <= u32_max(),
        x < width,
        y < height,
    ensures
        final(buf)@.len() == old(buf)@.len(),
        forall|k: int| 0 <= k < old(buf)@.len() ==> #[trigger] final(buf)@[k] == if pixel_offset(width as int, x as int, y as int) <= k
            < pixel_offset(width as int, x as int, y as int) + 4 {
            rgba@[k - pixel_offset(width as int, x as int, y as int)]
        } else {
            old(buf)@[k]
        },
{
    proof {
        lemma_pixel_in_canvas(width as int, height as int, x as int, y as int);
        assert((y * width + x) * 4 <= u32_max()) by (nonlinear_arith)
            requires
                (y * width + x) * 4 + 4 <= width * height * 4,
                width * height * 4 <= u32_max(),
        ;
    }
    let i = ((y * width + x) * 4) as usize;
    buf.set(i, rgba[0]);
    buf.set(i + 1, rgba[1]);
    buf.set(i + 2, rgba[2]);
    buf.set(i + 3, rgba[3]);
}

/// Paint one rectangle into a row-major RGBA buffer, clipped to the canvas.
fn fill_rect(buf: &mut Vec<u8>, width: u32, height: u32, rect: PaintRect)
    requires
        old(buf)@.len() == width * height * 4,
        width * height * 4 <= u32_max(),
        rect.x + rect.w <= u32_max(),
        rect.y + rect.h <= u32_max(),
    ensures
        final(buf)@ == paint(old(buf)@, width, rect),
{
    let ghost start = buf@;
    let xe = rect.x + rect.w;
    let ye = rect.y + rect.h;
    let x1 = if xe < width { xe } else { width };
    let y1 = if ye < height { ye } else { height };
    let ghost len = start.len();
    let mut y = rect.y;
    while y < y1
        invariant
            buf@.len() == len,
            len == width * height * 4,
            width * height * 4 <= u32_max(),
            x1 <= width,
            y1 <= height,
            x1 == if rect.x + rect.w < width { rect.x + rect.w } else { width as int },
            y1 == if rect.y + rect.h < height { rect.y + rect.h } else { height as int },
            rect.y <= y,
            y <= y1 || y == rect.y,
            forall|k: int| 0 <= k < len ==> buf@[k] == if covers(rect, byte_x(width, k), byte_y(width, k)) && byte_y(width, k) < y {
                rect_byte(rect, k % 4)
            } else {
                start[k]
            },
        decreases y1 - y,
    {
        let mut x = rect.x;
        while x < x1
            invariant
                buf@.len() == len,
                len == width * height * 4,
                width * height * 4 <= u32_max(),
                x1 <= width,
                y < y1,
                y1 <= height,
                x1 == if rect.x + rect.w < width { rect.x + rect.w } else { width as int },
                y1 == if rect.y + rect.h < height { rect.y + rect.h } else { height as int },
                rect.y <= y,
                rect.x <= x,
                x <= x1 || x == rect.x,
                forall|k: int| 0 <= k < len ==> buf@[k] == if covers(rect, byte_x(width, k), byte_y(width, k)) && (byte_y(width, k) < y
                    || (byte_y(width, k) == y && byte_x(width, k) < x)) {
                    rect_byte(rect, k % 4)
                } else {
                    start[k]
                },
            decreases x1 - x,
        {
            proof {
                lemma_pixel_in_canvas(width as int, height as int, x as int, y as int);
                assert((y * width + x) * 4 <= u32_max()) by (nonlinear_arith)
                    requires
                        (y * width + x) * 4 + 4 <= width * height * 4,
                        width * height * 4 <= u32_max(),
                ;
            }
            let i = ((y * width + x) * 4) as usize;
            let ghost before = buf@;
            let rgba: [u8; 4] = [rect.r, rect.g, rect.b, 255];
            put_rgba(buf, width, height, x, y, rgba);
            proof {
                assert(rgba@[0] == rect_byte(rect, 0) && rgba@[1] == rect_byte(rect, 1));
                assert(rgba@[2] == rect_byte(rect, 2) && rgba@[3] == rect_byte(rect, 3));
                assert forall|k: int| 0 <= k < len implies buf@[k] == if covers(rect, byte_x(width, k), byte_y(width, k)) && (byte_y(width, k) < y
                    || (byte_y(width, k) == y && byte_x(width, k) < x + 1)) {
                    rect_byte(rect, k % 4)
                } else {
                    start[k]
                } by {
                    if i <= k < i + 4 {
                        lemma_pixel_coords(width as int, x as int, y as int, k - i);
                        assert(covers(rect, x as int, y as int));
                        assert(buf@[k] == rect_byte(rect, k - i));
                    } else {
                        assert(buf@[k] == before[k]);
                        let p = k / 4;
                        vstd::arithmetic::div_mod::lemma_fundamental_div_mod(k, 4);
                        vstd::arithmetic::div_mod::lemma_fundamental_div_mod(p, width as int);
                        if byte_y(width, k) == y && byte_x(width, k) == x {
                            assert(p == y * width + x) by (nonlinear_arith)
                                requires
                                    p == width * (p / (width as int)) + p % (width as int),
                                    p / (width as int) == y,
                                    p % (width as int) == x,
                            ;
                            assert(i <= k < i + 4);
                        }
                    }
                }
            }
            x = x + 1;
        }
        proof {
            assert forall|k: int| 0 <= k < len implies buf@[k] == if covers(rect, byte_x(width, k), byte_y(width, k)) && byte_y(width, k) < y + 1 {
                rect_byte(rect, k % 4)
            } else {
                start[k]
            } by {
                assert(width > 0) by (nonlinear_arith)
                    requires
                        0 <= k < width * height * 4,
                ;
                vstd::arithmetic::div_mod::lemma_mod_bound(k / 4, width as int);
            }
        }
        y = y + 1;
    }
    proof {
        assert forall|k: int| 0 <= k < len implies buf@[k] == paint(start, width, rect)[k] by {
            assert(width > 0) by (nonlinear_arith)
                requires
                    0 <= k < width * height * 4,
            ;
            let p = k / 4;
            vstd::arithmetic::div_mod::lemma_fundamental_div_mod(k, 4);
            vstd::arithmetic::div_mod::lemma_fundamental_div_mod(p, width as int);
            assert(p < width * height) by (nonlinear_arith)
                requires
                    k == 4 * p + k % 4,
                    0 <= k % 4 < 4,
                    k < width * height * 4,
            ;
            assert(p / (width as int) < height) by (nonlinear_arith)
                requires
                    p == width * (p / (width as int)) + p % (width as int),
                    0 <= p % (width as int),
                    p < width * height,
                    width > 0,
            ;
        }
        assert(buf@ =~= paint(start, width, rect));
    }
}


pub proof fn lemma_paint_all_concat(buf: Seq<u8>, width: u32, a: Seq<PaintRect>, b: Seq<PaintRect>)
    ensures
        paint_all(buf, width, a + b) == paint_all(paint_all(buf, width, a), width, b),
    decreases b.len(),
{
    if b.len() == 0 {
        assert(a + b =~= a);
    } else {
        lemma_paint_all_concat(buf, width, a, b.drop_last());
        assert((a + b).drop_last() =~= a + b.drop_last());
        assert((a + b).last() == b.last());
    }
}

/// The block of cell `(cx, cy)` of glyph `g` drawn at `(ox, oy)` with scale `s`.
pub open spec fn cell_rect(p: GlyphProfile, g: GridView, ox: u32, oy: u32, s: u32, cx: int, cy: int) -> PaintRect {
    let c = rgb_spec(p.palette_size, g.at(cx, cy));
    PaintRect { x: (ox + cx * s) as u32, y: (oy + cy * s) as u32, w: s, h: s, r: c[0], g: c[1], b: c[2] }
}

/// The cell blocks of one glyph, row by row.
pub open spec fn glyph_rects(p: GlyphProfile, g: GridView, ox: u32, oy: u32, s: u32) -> Seq<PaintRect> {
    Seq::new(p.cells(), |k: int| cell_rect(p, g, ox, oy, s, k % (p.width as int), k / (p.width as int)))
}

/// The cell blocks of the first `k` glyphs, glyph by glyph.
pub open spec fn glyphs_rects(p: GlyphProfile, gs: Seq<GridView>, os: Seq<(u32, u32)>, s: u32, k: nat) -> Seq<PaintRect>
    decreases k,
{
    if k == 0 {
        Seq::empty()
    } else {
        glyphs_rects(p, gs, os, s, (k - 1) as nat) + glyph_rects(p, gs[k - 1], os[k - 1].0, os[k - 1].1, s)
    }
}

/// The separator bars drawn after glyph `i` of `n` at `(ox, oy)`: one to its
/// right unless it ends its row, one below it unless it is on the last row.
pub open spec fn bar_rects(p: GlyphProfile, lo: LayoutOptions, sep: Separator, i: int, n: int, ox: u32, oy: u32) -> Seq<PaintRect> {
    let gw = (p.width * lo.cell_scale) as u32;
    let gh = (p.height * lo.cell_scale) as u32;
    let c = sep.color;
    let right = if !crate::layout::last_in_row(lo.layout, i, n) && sep.thickness > 0 {
        seq![PaintRect { x: (ox + gw) as u32, y: oy, w: sep.thickness, h: gh, r: c[0], g: c[1], b: c[2] }]
    } else {
        Seq::empty()
    };
    let below = if crate::layout::cell_of(lo.layout, i as usize).1 + 1 < lo.layout.rows_spec(n as usize) {
        seq![PaintRect { x: ox, y: (oy + gh) as u32, w: gw, h: sep.thickness, r: c[0], g: c[1], b: c[2] }]
    } else {
        Seq::empty()
    };
    right + below
}

/// The separator bars of the first `k` glyphs of `n`.
pub open spec fn bars_rects(p: GlyphProfile, lo: LayoutOptions, sep: Separator, os: Seq<(u32, u32)>, n: int, k: nat) -> Seq<PaintRect>
    decreases k,
{
    if k == 0 {
        Seq::empty()
    } else {
        bars_rects(p, lo, sep, os, n, (k - 1) as nat) + bar_rects(p, lo, sep, k - 1, n, os[k - 1].0, os[k - 1].1)
    }
}

/// Everything painted for a composition of glyphs `gs` at origins `os` in a
/// `w × h` image: background, cell blocks, separator bars.
pub open spec fn render_rects(p: GlyphProfile, gs: Seq<GridView>, lo: LayoutOptions, w: u32, h: u32, os: Seq<(u32, u32)>) -> Seq<PaintRect> {
    let background = PaintRect { x: 0, y: 0, w, h, r: 0, g: 0, b: 0 };
    let bars = match lo.separator {
        Some(sep) => bars_rects(p, lo, sep, os, gs.len() as int, gs.len()),
        None => Seq::empty(),
    };
    seq![background] + glyphs_rects(p, gs, os, lo.cell_scale, gs.len()) + bars
}

/// Glyphs actually drawn: checked against the profile, grid layouts padded with
/// blank glyphs to whole rows.
pub open spec fn prepare_spec(p: GlyphProfile, gs: Seq<GridView>, o: RenderOptions) -> Result<Seq<GridView>> {
    if gs.len() == 0 {
        Err(GlyphixError::EmptyGlyphSequence)
    } else {
        match glyphs_check(p, gs) {
            Err(e) => Err(e),
            Ok(_) => match o.layout {
                GlyphLayout::Grid { columns } => pad_spec(p, gs, columns),
                GlyphLayout::HorizontalStrip => Ok(gs),
            },
        }
    }
}

/// Drawn glyphs, image size and glyph origins of a composition.
pub open spec fn render_frame(p: GlyphProfile, gs: Seq<GridView>, o: RenderOptions) -> Result<(Seq<GridView>, u32, u32, Seq<(u32, u32)>)> {
    let lo = o.layout_spec();
    if !lo.valid() {
        Err(lo.validate_spec()->Err_0)
    } else {
        match prepare_spec(p, gs, o) {
            Err(e) => Err(e),
            Ok(ps) => match image_size_spec(p, ps.len() as usize, lo) {
                Err(e) => Err(e),
                Ok((w, h)) => match origins_spec(p, ps.len(), ps.len() as usize, lo) {
                    Err(e) => Err(e),
                    Ok(os) => Ok((ps, w, h, os)),
                },
            },
        }
    }
}

/// The machine-word arithmetic of rendering fits: glyph counts and the byte size of
/// the image stay within `u32`.
pub open spec fn render_fits(p: GlyphProfile, gs: Seq<GridView>, o: RenderOptions) -> bool {
    &&& compose_fits(gs, o)
    &&& (render_frame(p, gs, o) matches Ok((ps, w, h, os)) ==> w * h * 4 <= u32_max())
}

/// Glyph counts of a composition fit `u32`, padding a grid included.
pub open spec fn compose_fits(gs: Seq<GridView>, o: RenderOptions) -> bool {
    count_fits(gs.len(), o)
}

/// A composition of `n` glyphs keeps its counts within `u32`, padding a grid included.
pub open spec fn count_fits(n: nat, o: RenderOptions) -> bool {
    &&& n <= u32_max()
    &&& (o.layout matches GlyphLayout::Grid { columns } ==> (columns >= 1 && n >= 1
        ==> crate::layout::ceil_div_u32(n as u32, columns) * columns <= u32_max()))
}

/// A zeroed canvas of `len` bytes.
pub open spec fn blank_canvas(len: nat) -> Seq<u8> {
    Seq::new(len, |k: int| 0u8)
}

/// A rendered image agrees with the specified composition.
pub open spec fn render_agrees(
    r: Result<RgbaImage>,
    frame: Result<(Seq<GridView>, u32, u32, Seq<(u32, u32)>)>,
    p: GlyphProfile,
    lo: LayoutOptions,
) -> bool {
    match (r, frame) {
        (Ok(img), Ok((ps, w, h, os))) => {
            &&& img.width == w
            &&& img.height == h
            &&& img.pixels@ == paint_all(blank_canvas((w * h * 4) as nat), w, render_rects(p, ps, lo, w, h, os))
        },
        (Err(e1), Err(e2)) => e1.agrees(e2),
        _ => false,
    }
}

/// Paint the cell blocks of one glyph whose tile lies inside the canvas.
fn paint_glyph_at(buf: &mut Vec<u8>, img_w: u32, img_h: u32, profile: &GlyphProfile, grid: &Grid, ox: u32, oy: u32, scale: u32) -> (r: Result<()>)
    requires
        old(buf)@.len() == img_w * img_h * 4,
        img_w * img_h * 4 <= u32_max(),
        grid@.wf(),
        grid@.width == profile.width,
        grid@.height == profile.height,
        grid@.colors_below(profile.palette_size),
        ox + profile.width * scale <= img_w,
        oy + profile.height * scale <= img_h,
    ensures
        r is Ok,
        final(buf)@ == paint_all(old(buf)@, img_w, glyph_rects(*profile, grid@, ox, oy, scale)),
{
    let ghost start = buf@;
    let ghost rects = glyph_rects(*profile, grid@, ox, oy, scale);
    let w = profile.width;
    let h = profile.height;
    let mut cy: u32 = 0;
    assert(rects.take(0) =~= Seq::<PaintRect>::empty());
    while cy < h
        invariant
            buf@.len() == img_w * img_h * 4,
            img_w * img_h * 4 <= u32_max(),
            grid@.wf(),
            grid@.width == w,
            grid@.height == h,
            w == profile.width,
            h == profile.height,
            grid@.colors_below(profile.palette_size),
            ox + w * scale <= img_w,
            oy + h * scale <= img_h,
            rects == glyph_rects(*profile, grid@, ox, oy, scale),
            cy <= h,
            buf@ == paint_all(start, img_w, rects.take(cy * w)),
        decreases h - cy,
    {
        let mut cx: u32 = 0;
        while cx < w
            invariant
                buf@.len() == img_w * img_h * 4,
                img_w * img_h * 4 <= u32_max(),
                grid@.wf(),
                grid@.width == w,
                grid@.height == h,
                w == profile.width,
                h == profile.height,
                grid@.colors_below(profile.palette_size),
                ox + w * scale <= img_w,
                oy + h * scale <= img_h,
                rects == glyph_rects(*profile, grid@, ox, oy, scale),
                cy < h,
                cx <= w,
                buf@ == paint_all(start, img_w, rects.take(cy * w + cx)),
            decreases w - cx,
        {
            let idx = grid.get(cx, cy)?;
            proof {
                crate::grid::lemma_index_bound(w as int, h as int, cx as int, cy as int);
            }
            let c = index_to_rgb(profile.palette_size, idx)?;
            proof {
                assert((cx + 1) * scale <= w * scale) by (nonlinear_arith)
                    requires
                        cx + 1 <= w,
                ;
                assert((cy + 1) * scale <= h * scale) by (nonlinear_arith)
                    requires
                        cy + 1 <= h,
                ;
                assert((cx + 1) * scale == cx * scale + scale) by (nonlinear_arith);
                assert((cy + 1) * scale == cy * scale + scale) by (nonlinear_arith);
            }
            let px = ox + cx * scale;
            let py = oy + cy * scale;
            let rect = PaintRect { x: px, y: py, w: scale, h: scale, r: c[0], g: c[1], b: c[2] };
            proof {
                let k = cy * w + cx;
                assert(k < w * h) by (nonlinear_arith)
                    requires
                        k == cy * w + cx,
                        cx < w,
                        cy < h,
                ;
                vstd::arithmetic::div_mod::lemma_fundamental_div_mod_converse(k as int, w as int, cy as int, cx as int);
                assert(rects[k as int] == rect);
                assert(rects.take(k + 1) =~= rects.take(k as int).push(rect));
                lemma_paint_all_push(start, img_w, rects.take(k as int), rect);
            }
            fill_rect(buf, img_w, img_h, rect);
            cx = cx + 1;
        }
        proof {
            assert(cy * w + w == (cy + 1) * w) by (nonlinear_arith);
        }
        cy = cy + 1;
    }
    proof {
        assert(h * w == profile.cells()) by (nonlinear_arith)
            requires
                w == profile.width,
                h == profile.height,
        ;
        assert(rects.take((h * w) as int) =~= rects);
    }
    Ok(())
}



/// A glyph fits the profile: right size, every color in the palette.
pub open spec fn fits_profile(g: GridView, p: GlyphProfile) -> bool {
    &&& g.wf()
    &&& g.width == p.width
    &&& g.height == p.height
    &&& g.colors_below(p.palette_size)
}

/// Paint the separator bars of a composition whose glyph origins are `os`.
fn paint_separators(
    buf: &mut Vec<u8>,
    img_w: u32,
    img_h: u32,
    profile: &GlyphProfile,
    glyph_count: usize,
    layout: &LayoutOptions,
    Ghost(os): Ghost<Seq<(u32, u32)>>,
) -> (r: Result<()>)
    requires
        old(buf)@.len() == img_w * img_h * 4,
        img_w * img_h * 4 <= u32_max(),
        layout.valid(),
        1 <= glyph_count <= u32_max(),
        image_size_spec(*profile, glyph_count, *layout) == Ok::<(u32, u32), GlyphixError>((img_w, img_h)),
        origins_spec(*profile, glyph_count as nat, glyph_count, *layout) == Ok::<Seq<(u32, u32)>, GlyphixError>(os),
    ensures
        r is Ok,
        final(buf)@ == match layout.separator {
            Some(sep) => paint_all(old(buf)@, img_w, bars_rects(*profile, *layout, sep, os, glyph_count as int, glyph_count as nat)),
            None => old(buf)@,
        },
{
    let sep = match layout.separator {
        None => return Ok(()),
        Some(sep) => sep,
    };
    let ghost start = buf@;
    let (gw, gh) = crate::layout::glyph_pixel_size(profile, layout.cell_scale)?;
    let rows = layout.layout.rows_for(glyph_count);
    let c = sep.color;
    let mut i: usize = 0;
    proof {
        lemma_origins_len(*profile, glyph_count as nat, glyph_count, *layout, os);
    }
    while i < glyph_count
        invariant
            buf@.len() == img_w * img_h * 4,
            img_w * img_h * 4 <= u32_max(),
            layout.valid(),
            layout.separator == Some(sep),
            1 <= glyph_count <= u32_max(),
            image_size_spec(*profile, glyph_count, *layout) == Ok::<(u32, u32), GlyphixError>((img_w, img_h)),
            origins_spec(*profile, glyph_count as nat, glyph_count, *layout) == Ok::<Seq<(u32, u32)>, GlyphixError>(os),
            os.len() == glyph_count,
            gw == profile.width * layout.cell_scale,
            gh == profile.height * layout.cell_scale,
            rows == layout.layout.rows_spec(glyph_count),
            c == sep.color,
            i <= glyph_count,
            buf@ == paint_all(start, img_w, bars_rects(*profile, *layout, sep, os, glyph_count as int, i as nat)),
        decreases glyph_count - i,
    {
        proof {
            lemma_origin_of_origins(*profile, glyph_count as nat, glyph_count, *layout, os, i as nat);
        }
        let (ox, oy) = glyph_origin(profile, i, glyph_count, layout)?;
        proof {
            crate::layout::lemma_tile_in_image(*profile, glyph_count, *layout, img_w, img_h, i, ox, oy);
        }
        let (col, row) = match layout.layout {
            GlyphLayout::HorizontalStrip => (i as u32, 0u32),
            GlyphLayout::Grid { columns } => {
                let k = i as u32;
                (k % columns, k / columns)
            },
        };
        let last_in_row = match layout.layout {
            GlyphLayout::HorizontalStrip => i + 1 >= glyph_count,
            GlyphLayout::Grid { columns } => col + 1 >= columns || i + 1 >= glyph_count,
        };
        let ghost mid = buf@;
        let ghost right_rects: Seq<PaintRect> = Seq::empty();
        if !last_in_row && sep.thickness > 0 {
            let rect = PaintRect { x: ox + gw, y: oy, w: sep.thickness, h: gh, r: c[0], g: c[1], b: c[2] };
            fill_rect(buf, img_w, img_h, rect);
            proof {
                right_rects = seq![rect];
                lemma_paint_all_push(mid, img_w, Seq::empty(), rect);
            }
        }
        let ghost mid2 = buf@;
        let ghost below_rects: Seq<PaintRect> = Seq::empty();
        if row + 1 < rows {
            let rect = PaintRect { x: ox, y: oy + gh, w: gw, h: sep.thickness, r: c[0], g: c[1], b: c[2] };
            fill_rect(buf, img_w, img_h, rect);
            proof {
                below_rects = seq![rect];
                lemma_paint_all_push(mid2, img_w, Seq::empty(), rect);
            }
        }
        proof {
            let bars = bar_rects(*profile, *layout, sep, i as int, glyph_count as int, ox, oy);
            assert(bars =~= right_rects + below_rects);
            lemma_paint_all_concat(mid, img_w, right_rects, below_rects);
            let prev = bars_rects(*profile, *layout, sep, os, glyph_count as int, i as nat);
            assert(bars_rects(*profile, *layout, sep, os, glyph_count as int, (i + 1) as nat) == prev + bars);
            lemma_paint_all_concat(start, img_w, prev, bars);
        }
        i = i + 1;
    }
    Ok(())
}

/// Origins collected for `k` glyphs number `k`.
pub proof fn lemma_origins_len(p: GlyphProfile, k: nat, n: usize, lo: LayoutOptions, os: Seq<(u32, u32)>)
    requires
        origins_spec(p, k, n, lo) == Ok::<Seq<(u32, u32)>, GlyphixError>(os),
    ensures
        os.len() == k,
    decreases k,
{
    if k > 0 {
        let prev = origins_spec(p, (k - 1) as nat, n, lo);
        assert(prev is Ok);
        lemma_origins_len(p, (k - 1) as nat, n, lo, prev->Ok_0);
    }
}

/// Entry `i` of the collected origins is the origin of glyph `i`.
pub proof fn lemma_origin_of_origins(p: GlyphProfile, k: nat, n: usize, lo: LayoutOptions, os: Seq<(u32, u32)>, i: nat)
    requires
        origins_spec(p, k, n, lo) == Ok::<Seq<(u32, u32)>, GlyphixError>(os),
        i < k,
    ensures
        origin_spec(p, i as usize, n, lo) == Ok::<(u32, u32), GlyphixError>(os[i as int]),
    decreases k,
{
    let prev = origins_spec(p, (k - 1) as nat, n, lo);
    assert(prev is Ok);
    let pv = prev->Ok_0;
    lemma_origins_len(p, (k - 1) as nat, n, lo, pv);
    assert(os == pv.push(origin_spec(p, (k - 1) as usize, n, lo)->Ok_0));
    if i < k - 1 {
        lemma_origin_of_origins(p, (k - 1) as nat, n, lo, pv, i);
        assert(os[i as int] == pv[i as int]);
    }
}

/// Check the glyphs against the profile and pad a grid's last row with blank glyphs.
fn prepare_glyphs(profile: &GlyphProfile, glyphs: &[Grid], opts: &RenderOptions) -> (r: Result<Vec<Grid>>)
    requires
        profile.wf(),
        forall|j: int| 0 <= j < glyphs@.len() ==> (#[trigger] glyphs@[j])@.wf(),
        compose_fits(views(glyphs@), *opts),
    ensures
        crate::grid::glyphs_agree(r, prepare_spec(*profile, views(glyphs@), *opts)),
        r matches Ok(gs) ==> forall|j: int| 0 <= j < gs@.len() ==> fits_profile((#[trigger] gs@[j])@, *profile),
{
    let ghost gv = views(glyphs@);
    if glyphs.len() == 0 {
        return Err(GlyphixError::EmptyGlyphSequence);
    }
    let mut i: usize = 0;
    assert(gv.skip(0) =~= gv);
    while i < glyphs.len()
        invariant
            gv == views(glyphs@),
            gv.len() == glyphs@.len(),
            forall|j: int| 0 <= j < glyphs@.len() ==> (#[trigger] glyphs@[j])@.wf(),
            i <= glyphs@.len(),
            glyphs_check(*profile, gv) == glyphs_check(*profile, gv.skip(i as int)),
            forall|j: int| 0 <= j < i ==> fits_profile(#[trigger] gv[j], *profile),
        decreases glyphs@.len() - i,
    {
        assert(gv.skip(i as int)[0] == glyphs@[i as int]@);
        glyphs[i].validate_profile(profile)?;
        proof {
            crate::grid::lemma_palette_check_ok(gv[i as int].cells, profile.palette_size);
            assert(gv.skip(i as int).drop_first() =~= gv.skip(i + 1));
        }
        i = i + 1;
    }
    assert(gv.skip(glyphs@.len() as int) =~= Seq::<GridView>::empty());
    match opts.layout {
        GlyphLayout::Grid { columns } => {
            let r = crate::layout::pad_glyphs_for_grid(profile, glyphs, columns);
            proof {
                if r is Ok {
                    let out = r->Ok_0;
                    let want = pad_spec(*profile, gv, columns)->Ok_0;
                    assert(views(out@) == want);
                    assert forall|j: int| 0 <= j < out@.len() implies fits_profile((#[trigger] out@[j])@, *profile) by {
                        assert(views(out@)[j] == out@[j]@);
                        if j < gv.len() {
                            assert(want[j] == gv[j]);
                        } else {
                            profile.lemma_wf();
                            assert(want[j] == GridView::zeros(profile.width, profile.height));
                        }
                    }
                }
            }
            r
        },
        GlyphLayout::HorizontalStrip => {
            let mut out: Vec<Grid> = Vec::new();
            let mut k: usize = 0;
            while k < glyphs.len()
                invariant
                    gv == views(glyphs@),
                    k <= glyphs@.len(),
                    views(out@) == gv.take(k as int),
                    forall|j: int| 0 <= j < glyphs@.len() ==> fits_profile(#[trigger] gv[j], *profile),
                decreases glyphs@.len() - k,
            {
                let g = glyphs[k].duplicate();
                let ghost before = views(out@);
                out.push(g);
                proof {
                    assert(views(out@) =~= before.push(g@));
                    assert(gv.take(k + 1) =~= gv.take(k as int).push(gv[k as int]));
                }
                k = k + 1;
            }
            proof {
                assert(gv.take(glyphs@.len() as int) =~= gv);
                assert forall|j: int| 0 <= j < out@.len() implies fits_profile((#[trigger] out@[j])@, *profile) by {
                    assert(views(out@)[j] == out@[j]@);
                }
            }
            Ok(out)
        },
    }
}

/// A zeroed byte buffer.
fn zero_bytes(n: usize) -> (v: Vec<u8>)
    ensures
        v@ == blank_canvas(n as nat),
{
    let mut v: Vec<u8> = Vec::with_capacity(n);
    let mut i: usize = 0;
    while i < n
        invariant
            i <= n,
            v@ == blank_canvas(i as nat),
        decreases n - i,
    {
        v.push(0);
        i = i + 1;
        assert(v@ =~= blank_canvas(i as nat));
    }
    v
}

/// Render glyphs to an exact RGBA image (no anti-alias).
///
/// Grid layouts pad the last row with blank (all-zero) glyphs so the image is a
/// full rectangle and clean parse can recover the glyph count uniquely.
pub fn render_rgba(profile: &GlyphProfile, glyphs: &[Grid], opts: &RenderOptions) -> (r: Result<RgbaImage>)
    requires
        profile.wf(),
        forall|j: int| 0 <= j < glyphs@.len() ==> (#[trigger] glyphs@[j])@.wf(),
        render_fits(*profile, views(glyphs@), *opts),
    ensures
        render_agrees(r, render_frame(*profile, views(glyphs@), *opts), *profile, opts.layout_spec()),
        r matches Ok(img) ==> img.wf(),
{
    let ghost gv = views(glyphs@);
    opts.validate()?;
    let drawn = prepare_glyphs(profile, glyphs, opts)?;
    let ghost ps = views(drawn@);
    assert(prepare_spec(*profile, gv, *opts) == Ok::<Seq<GridView>, GlyphixError>(ps));
    let layout = opts.to_layout();
    let n = drawn.len();
    let (width, height) = image_size(profile, n, &layout)?;
    proof {
        assert(ps.len() == n);
        assert(n <= u32_max());
        assert(ps.len() as usize == n);
    }
    let ghost os_all = origins_spec(*profile, n as nat, n, layout);
    // The canvas size fits `u32` once every origin is known; until then nothing is painted.
    let mut origins: Vec<(u32, u32)> = Vec::new();
    let mut i: usize = 0;
    while i < n
        invariant
            layout.valid(),
            layout == opts.layout_spec(),
            n == drawn@.len(),
            ps == views(drawn@),
            ps.len() == n,
            prepare_spec(*profile, gv, *opts) == Ok::<Seq<GridView>, GlyphixError>(ps),
            gv == views(glyphs@),
            image_size_spec(*profile, n, layout) == Ok::<(u32, u32), GlyphixError>((width, height)),
            i <= n,
            origins_spec(*profile, i as nat, n, layout) == Ok::<Seq<(u32, u32)>, GlyphixError>(origins@),
        decreases n - i,
    {
        let xy = match glyph_origin(profile, i, n, &layout) {
            Ok(xy) => xy,
            Err(e) => {
                proof {
                    let oe = origin_spec(*profile, i, n, layout);
                    assert(origins_spec(*profile, (i + 1) as nat, n, layout) == Err::<Seq<(u32, u32)>, GlyphixError>(oe->Err_0));
                    crate::layout::lemma_origins_error_sticks(*profile, (i + 1) as nat, n as nat, n, layout);
                    assert(ps.len() as usize == n);
                }
                return Err(e);
            },
        };
        origins.push(xy);
        i = i + 1;
    }
    let ghost os = origins@;
    proof {
        assert(render_frame(*profile, gv, *opts) == Ok::<(Seq<GridView>, u32, u32, Seq<(u32, u32)>), GlyphixError>((ps, width, height, os)));
        assert(width * height * 4 <= u32_max());
        lemma_origins_len(*profile, n as nat, n, layout, os);
    }
    let total = (width as usize) * (height as usize) * 4;
    let mut pixels = zero_bytes(total);
    let ghost blank = pixels@;
    let background = PaintRect { x: 0, y: 0, w: width, h: height, r: 0, g: 0, b: 0 };
    fill_rect(&mut pixels, width, height, background);
    proof {
        lemma_paint_all_push(blank, width, Seq::empty(), background);
        assert(seq![background] + glyphs_rects(*profile, ps, os, opts.cell_scale, 0) =~= seq![background]);
    }
    let s = opts.cell_scale;
    let mut k: usize = 0;
    while k < n
        invariant
            profile.wf(),
            layout.valid(),
            layout == opts.layout_spec(),
            s == layout.cell_scale,
            n == drawn@.len(),
            ps == views(drawn@),
            1 <= n <= u32_max(),
            forall|j: int| 0 <= j < drawn@.len() ==> fits_profile((#[trigger] drawn@[j])@, *profile),
            image_size_spec(*profile, n, layout) == Ok::<(u32, u32), GlyphixError>((width, height)),
            origins_spec(*profile, n as nat, n, layout) == Ok::<Seq<(u32, u32)>, GlyphixError>(os),
            origins@ == os,
            os.len() == n,
            pixels@.len() == width * height * 4,
            width * height * 4 <= u32_max(),
            k <= n,
            pixels@ == paint_all(blank, width, seq![background] + glyphs_rects(*profile, ps, os, s, k as nat)),
        decreases n - k,
    {
        let (ox, oy) = origins[k];
        proof {
            lemma_origin_of_origins(*profile, n as nat, n, layout, os, k as nat);
            crate::layout::lemma_tile_in_image(*profile, n, layout, width, height, k, ox, oy);
            assert(drawn@[k as int]@ == ps[k as int]);
        }
        let ghost before = pixels@;
        paint_glyph_at(&mut pixels, width, height, profile, &drawn[k], ox, oy, s)?;
        proof {
            lemma_paint_all_len(before, width, glyph_rects(*profile, ps[k as int], ox, oy, s));
            let prev = seq![background] + glyphs_rects(*profile, ps, os, s, k as nat);
            let gr = glyph_rects(*profile, ps[k as int], ox, oy, s);
            lemma_paint_all_concat(blank, width, prev, gr);
            assert(seq![background] + glyphs_rects(*profile, ps, os, s, (k + 1) as nat) =~= prev + gr);
        }
        k = k + 1;
    }
    let ghost painted = pixels@;
    paint_separators(&mut pixels, width, height, profile, n, &layout, Ghost(os))?;
    proof {
        if let Some(sep) = layout.separator {
            lemma_paint_all_len(painted, width, bars_rects(*profile, layout, sep, os, n as int, n as nat));
        }
        let front = seq![background] + glyphs_rects(*profile, ps, os, s, n as nat);
        let bars = match layout.separator {
            Some(sep) => bars_rects(*profile, layout, sep, os, n as int, n as nat),
            None => Seq::empty(),
        };
        lemma_paint_all_concat(blank, width, front, bars);
        assert(render_rects(*profile, ps, layout, width, height, os) =~= front + bars);
        assert(blank == blank_canvas((width * height * 4) as nat));
    }
    Ok(RgbaImage { width, height, pixels })
}


/// The first error among `rs`, if any.
pub open spec fn first_err(rs: Seq<Result<u32>>) -> Option<GlyphixError>
    decreases rs.len(),
{
    if rs.len() == 0 {
        None
    } else if rs[0] is Err {
        Some(rs[0]->Err_0)
    } else {
        first_err(rs.drop_first())
    }
}

/// The `s × s` block at `(x0, y0)` has one color.
pub open spec fn block_uniform(img: RasterView, x0: int, y0: int, s: int) -> bool {
    forall|dx: int, dy: int| 0 <= dx < s && 0 <= dy < s ==> #[trigger] img.rgba_at(x0 + dx, y0 + dy).take(3) == img.rgba_at(x0, y0).take(3)
}

/// `(dx, dy)` comes before `(ex, ey)` when a block is scanned row by row.
pub open spec fn scanned_before(dx: int, dy: int, ex: int, ey: int) -> bool {
    dy < ey || (dy == ey && dx < ex)
}

/// Offset of the first pixel, row by row, whose color differs from the block's
/// top-left pixel.
pub open spec fn first_odd_pixel(img: RasterView, x0: int, y0: int, s: int) -> (int, int) {
    choose|dx: int, dy: int| #[trigger] is_first_odd_pixel(img, x0, y0, s, dx, dy)
}

/// `(dx, dy)` is inside the block, differs from its top-left pixel, and every
/// pixel scanned before it matches.
pub open spec fn is_first_odd_pixel(img: RasterView, x0: int, y0: int, s: int, dx: int, dy: int) -> bool {
    &&& 0 <= dx < s
    &&& 0 <= dy < s
    &&& img.rgba_at(x0 + dx, y0 + dy).take(3) != img.rgba_at(x0, y0).take(3)
    &&& forall|ex: int, ey: int| 0 <= ex < s && 0 <= ey && #[trigger] scanned_before(ex, ey, dx, dy)
        ==> img.rgba_at(x0 + ex, y0 + ey).take(3) == img.rgba_at(x0, y0).take(3)
}

/// `{:?}` text of three bytes: `[r, g, b]`.
pub open spec fn rgb_debug_text(c: Seq<u8>) -> Seq<char> {
    "["@ + decimal(c[0] as nat) + ", "@ + decimal(c[1] as nat) + ", "@ + decimal(c[2] as nat) + "]"@
}

/// The error for an `s × s` block that is not one color.
pub open spec fn block_error(img: RasterView, x0: int, y0: int, s: int) -> GlyphixError {
    let (dx, dy) = first_odd_pixel(img, x0, y0, s);
    GlyphixError::InvalidRaster(message(
        "non-uniform cell block at ("@ + decimal(x0 as nat) + ","@ + decimal(y0 as nat) + ") scale "@
            + decimal(s as nat) + ": "@ + rgb_debug_text(img.rgba_at(x0, y0).take(3)) + " vs "@
            + rgb_debug_text(img.rgba_at(x0 + dx, y0 + dy).take(3)),
    ))
}

/// The color index read from the `s × s` block at `(x0, y0)`.
pub open spec fn block_index(p: GlyphProfile, img: RasterView, x0: int, y0: int, s: int) -> Result<u32> {
    if !block_uniform(img, x0, y0, s) {
        Err(block_error(img, x0, y0, s))
    } else {
        crate::color::rgb_index_spec(p.palette_size, img.rgba_at(x0, y0).take(3))
    }
}

/// Block `j` of a composition read glyph by glyph, each glyph row by row.
pub open spec fn block_at(p: GlyphProfile, img: RasterView, s: u32, os: Seq<(u32, u32)>, j: int) -> Result<u32> {
    let c = p.cells() as int;
    let i = j / c;
    let k = j % c;
    block_index(p, img, os[i].0 + (k % (p.width as int)) * s, os[i].1 + (k / (p.width as int)) * s, s as int)
}

/// Every block of a composition.
pub open spec fn blocks_spec(p: GlyphProfile, img: RasterView, s: u32, os: Seq<(u32, u32)>) -> Seq<Result<u32>> {
    Seq::new(os.len() * p.cells(), |j: int| block_at(p, img, s, os, j))
}

/// Glyphs read from the blocks of a composition: the first failing block, or
/// every glyph's cells.
pub open spec fn read_blocks_spec(p: GlyphProfile, img: RasterView, s: u32, os: Seq<(u32, u32)>) -> Result<Seq<GridView>> {
    let rs = blocks_spec(p, img, s, os);
    match first_err(rs) {
        Some(e) => Err(e),
        None => Ok(Seq::new(os.len(), |i: int| GridView {
            width: p.width,
            height: p.height,
            cells: Seq::new(p.cells(), |k: int| rs[i * p.cells() + k]->Ok_0),
        })),
    }
}

/// Glyphs parsed from a clean raster.
pub open spec fn parse_spec(p: GlyphProfile, img: RasterView, o: RenderOptions) -> Result<Seq<GridView>> {
    let lo = o.layout_spec();
    if !lo.valid() {
        Err(lo.validate_spec()->Err_0)
    } else {
        match crate::layout::infer_spec(p, img.width, img.height, lo) {
            Err(e) => Err(e),
            Ok(n) => if n > p.max_glyphs {
                Err(GlyphixError::GlyphCountExceeded { count: n, cap: p.max_glyphs })
            } else {
                match image_size_spec(p, n, lo) {
                    Err(e) => Err(e),
                    Ok((w, h)) => if img.width != w || img.height != h {
                        Err(GlyphixError::InvalidRaster(message(
                            "image size "@ + decimal(img.width as nat) + "x"@ + decimal(img.height as nat)
                                + " != expected "@ + decimal(w as nat) + "x"@ + decimal(h as nat) + " for "@
                                + decimal(n as nat) + " glyphs"@,
                        )))
                    } else {
                        match origins_spec(p, n as nat, n, lo) {
                            Err(e) => Err(e),
                            Ok(os) => read_blocks_spec(p, img, lo.cell_scale, os),
                        }
                    },
                }
            },
        }
    }
}

/// Append the `{:?}` text of three bytes, `[r, g, b]`.
fn push_rgb_debug(out: &mut String, c: [u8; 3])
    ensures
        final(out)@ == old(out)@ + rgb_debug_text(c@),
{
    proof {
        reveal_strlit("[");
        reveal_strlit(", ");
        reveal_strlit("]");
    }
    out.append("[");
    push_decimal(out, c[0] as u64);
    out.append(", ");
    push_decimal(out, c[1] as u64);
    out.append(", ");
    push_decimal(out, c[2] as u64);
    out.append("]");
    assert(out@ =~= old(out)@ + rgb_debug_text(c@));
}

/// Require all pixels in the \(S\times S\) block to be equal; return that RGB.
fn sample_solid_block(image: &RgbaImage, x0: u32, y0: u32, s: u32) -> (r: Result<[u8; 3]>)
    requires
        image.wf(),
        image.width * image.height * 4 <= u32_max(),
        s >= 1,
        x0 + s <= image.width,
        y0 + s <= image.height,
    ensures
        r is Ok <==> block_uniform(image@, x0 as int, y0 as int, s as int),
        r matches Ok(c) ==> c@ == image@.rgba_at(x0 as int, y0 as int).take(3),
        r matches Err(e) ==> e.agrees(block_error(image@, x0 as int, y0 as int, s as int)),
{
    proof {
        lemma_offset_fits(image.width as int, image.height as int, x0 as int, y0 as int);
    }
    let first = image.get_rgb(x0, y0)?;
    let mut dy: u32 = 0;
    while dy < s
        invariant
            image.wf(),
            image.width * image.height * 4 <= u32_max(),
            x0 + s <= image.width,
            y0 + s <= image.height,
            dy <= s,
            first@ == image@.rgba_at(x0 as int, y0 as int).take(3),
            forall|ex: int, ey: int| 0 <= ex < s && 0 <= ey < dy ==> #[trigger] image@.rgba_at(x0 + ex, y0 + ey).take(3) == first@,
        decreases s - dy,
    {
        let mut dx: u32 = 0;
        while dx < s
            invariant
                image.wf(),
                image.width * image.height * 4 <= u32_max(),
                x0 + s <= image.width,
                y0 + s <= image.height,
                dy < s,
                dx <= s,
                first@ == image@.rgba_at(x0 as int, y0 as int).take(3),
                forall|ex: int, ey: int| 0 <= ex < s && 0 <= ey < dy ==> #[trigger] image@.rgba_at(x0 + ex, y0 + ey).take(3) == first@,
                forall|ex: int| 0 <= ex < dx ==> #[trigger] image@.rgba_at(x0 + ex, y0 + dy).take(3) == first@,
            decreases s - dx,
        {
            proof {
                lemma_offset_fits(image.width as int, image.height as int, (x0 + dx) as int, (y0 + dy) as int);
            }
            let rgb = image.get_rgb(x0 + dx, y0 + dy)?;
            if rgb[0] != first[0] || rgb[1] != first[1] || rgb[2] != first[2] {
                let mut msg = "non-uniform cell block at (".to_string();
                crate::text::push_decimal(&mut msg, x0 as u64);
                msg.append(",");
                crate::text::push_decimal(&mut msg, y0 as u64);
                msg.append(") scale ");
                crate::text::push_decimal(&mut msg, s as u64);
                msg.append(": ");
                push_rgb_debug(&mut msg, first);
                msg.append(" vs ");
                push_rgb_debug(&mut msg, rgb);
                proof {
                    let top = image@.rgba_at(x0 as int, y0 as int).take(3);
                    assert(image@.rgba_at(x0 + dx, y0 + dy).take(3) != top) by {
                        if image@.rgba_at(x0 + dx, y0 + dy).take(3) == first@ {
                            assert(rgb@[0] == first@[0]);
                            assert(rgb@[1] == first@[1]);
                            assert(rgb@[2] == first@[2]);
                        }
                    }
                    assert(!block_uniform(image@, x0 as int, y0 as int, s as int));
                    assert forall|ex: int, ey: int| 0 <= ex < s && 0 <= ey && #[trigger] scanned_before(ex, ey, dx as int, dy as int)
                        implies image@.rgba_at(x0 + ex, y0 + ey).take(3) == top by {
                        if ey < dy {
                            assert(image@.rgba_at(x0 + ex, y0 + ey).take(3) == first@);
                        } else {
                            assert(image@.rgba_at(x0 + ex, y0 + dy).take(3) == first@);
                        }
                    }
                    assert(is_first_odd_pixel(image@, x0 as int, y0 as int, s as int, dx as int, dy as int));
                    let (cx, cy) = first_odd_pixel(image@, x0 as int, y0 as int, s as int);
                    assert(is_first_odd_pixel(image@, x0 as int, y0 as int, s as int, cx, cy));
                    if scanned_before(cx, cy, dx as int, dy as int) {
                        if cy < dy {
                            assert(image@.rgba_at(x0 + cx, y0 + cy).take(3) == first@);
                        } else {
                            assert(image@.rgba_at(x0 + cx, y0 + dy).take(3) == first@);
                        }
                    }
                    if scanned_before(dx as int, dy as int, cx, cy) {
                        assert(image@.rgba_at(x0 + dx, y0 + dy).take(3) == top);
                    }
                    assert(cx == dx && cy == dy);
                    assert(rgb@ == image@.rgba_at(x0 + dx, y0 + dy).take(3));
                }
                return Err(GlyphixError::InvalidRaster(msg));
            }
            proof {
                assert(rgb@ =~= first@);
            }
            dx = dx + 1;
        }
        dy = dy + 1;
    }
    proof {
        assert forall|ex: int, ey: int| 0 <= ex < s && 0 <= ey < s implies #[trigger] image@.rgba_at(x0 + ex, y0 + ey).take(3) == image@.rgba_at(x0 as int, y0 as int).take(3) by {
        }
    }
    Ok(first)
}

/// Pixel offsets inside an image whose bytes fit `u32` fit `u32`.
proof fn lemma_offset_fits(width: int, height: int, x: int, y: int)
    requires
        0 <= x < width,
        0 <= y < height,
        width * height * 4 <= u32_max(),
    ensures
        pixel_offset(width, x, y) <= u32_max(),
{
    lemma_pixel_in_canvas(width, height, x, y);
}

/// When both steps fit, every glyph has an origin and collecting them succeeds.
proof fn lemma_origins_all_ok(p: GlyphProfile, n: usize, lo: LayoutOptions, w: u32, h: u32, k: nat)
    requires
        lo.valid(),
        1 <= n <= u32_max(),
        image_size_spec(p, n, lo) == Ok::<(u32, u32), GlyphixError>((w, h)),
        crate::layout::step_x_spec(p, lo) is Ok,
        crate::layout::step_y_spec(p, lo) is Ok,
        k <= n,
    ensures
        origins_spec(p, k, n, lo) == Ok::<Seq<(u32, u32)>, GlyphixError>(Seq::new(k, |j: int| origin_spec(p, j as usize, n, lo)->Ok_0)),
    decreases k,
{
    if k > 0 {
        lemma_origins_all_ok(p, n, lo, w, h, (k - 1) as nat);
        crate::layout::lemma_origin_ok(p, n, lo, w, h, (k - 1) as usize);
        let prev = Seq::new((k - 1) as nat, |j: int| origin_spec(p, j as usize, n, lo)->Ok_0);
        let xy = origin_spec(p, (k - 1) as usize, n, lo)->Ok_0;
        assert(origins_spec(p, k, n, lo) == Ok::<Seq<(u32, u32)>, GlyphixError>(prev.push(xy)));
        assert(Seq::new(k, |j: int| origin_spec(p, j as usize, n, lo)->Ok_0) =~= prev.push(xy));
    } else {
        assert(Seq::new(k, |j: int| origin_spec(p, j as usize, n, lo)->Ok_0) =~= Seq::<(u32, u32)>::empty());
    }
}

/// The first error of a sequence whose earlier entries succeed is its entry `j`.
proof fn lemma_first_err_at(rs: Seq<Result<u32>>, j: int)
    requires
        0 <= j < rs.len(),
        forall|t: int| 0 <= t < j ==> (#[trigger] rs[t]) is Ok,
        rs[j] is Err,
    ensures
        first_err(rs) == Some(rs[j]->Err_0),
    decreases j,
{
    if j > 0 {
        lemma_first_err_at(rs.drop_first(), j - 1);
    }
}

/// A sequence of successes has no first error.
pub proof fn lemma_first_err_none(rs: Seq<Result<u32>>)
    requires
        forall|t: int| 0 <= t < rs.len() ==> (#[trigger] rs[t]) is Ok,
    ensures
        first_err(rs) is None,
    decreases rs.len(),
{
    if rs.len() > 0 {
        lemma_first_err_none(rs.drop_first());
    }
}

/// What parsing has established before reading blocks: options, glyph count and
/// image size check out.
pub open spec fn parse_ready(p: GlyphProfile, img: RasterView, o: RenderOptions, n: usize) -> bool {
    let lo = o.layout_spec();
    &&& lo.valid()
    &&& crate::layout::infer_spec(p, img.width, img.height, lo) == Ok::<usize, GlyphixError>(n)
    &&& n <= p.max_glyphs
    &&& image_size_spec(p, n, lo) == Ok::<(u32, u32), GlyphixError>((img.width, img.height))
}

/// Glyph `i` read from successful blocks.
pub open spec fn glyph_of_blocks(p: GlyphProfile, rs: Seq<Result<u32>>, i: int) -> GridView {
    GridView { width: p.width, height: p.height, cells: Seq::new(p.cells(), |k: int| rs[i * p.cells() + k]->Ok_0) }
}

/// Parse a **clean** RGBA raster back into glyphs.
pub fn parse_rgba(profile: &GlyphProfile, image: &RgbaImage, opts: &RenderOptions) -> (r: Result<Vec<Grid>>)
    requires
        profile.wf(),
        image.wf(),
        image.width * image.height * 4 <= u32_max(),
        crate::layout::grid_shape(*profile, image.width, image.height, opts.layout_spec()) matches Some((rows, cols)) ==> rows * cols <= u32_max(),
    ensures
        crate::grid::glyphs_agree(r, parse_spec(*profile, image@, *opts)),
{
    opts.validate()?;
    let layout = opts.to_layout();
    let n = crate::layout::infer_glyph_count(profile, image.width, image.height, &layout)?;
    if n > profile.max_glyphs {
        return Err(GlyphixError::GlyphCountExceeded { count: n, cap: profile.max_glyphs });
    }
    let expected = image_size(profile, n, &layout)?;
    if image.width != expected.0 || image.height != expected.1 {
        let mut msg = "image size ".to_string();
        crate::text::push_decimal(&mut msg, image.width as u64);
        msg.append("x");
        crate::text::push_decimal(&mut msg, image.height as u64);
        msg.append(" != expected ");
        crate::text::push_decimal(&mut msg, expected.0 as u64);
        msg.append("x");
        crate::text::push_decimal(&mut msg, expected.1 as u64);
        msg.append(" for ");
        crate::text::push_decimal(&mut msg, n as u64);
        msg.append(" glyphs");
        return Err(GlyphixError::InvalidRaster(msg));
    }
    let ghost lo = layout;
    let ghost w = image.width;
    let ghost h = image.height;
    proof {
        profile.lemma_wf();
        assert(image_size_spec(*profile, n, lo) == Ok::<(u32, u32), GlyphixError>((w, h)));
        crate::layout::lemma_infer_count_bound(*profile, w, h, lo, n);
    }
    let s = opts.cell_scale;
    let pw = profile.width;
    let ph = profile.height;
    let ghost cells = profile.cells() as int;
    let ghost os = Seq::new(n as nat, |j: int| origin_spec(*profile, j as usize, n, lo)->Ok_0);
    let ghost rs = blocks_spec(*profile, image@, s, os);
    let mut glyphs: Vec<Grid> = Vec::new();
    let mut i: usize = 0;
    while i < n
        invariant
            profile.wf(),
            image.wf(),
            image.width * image.height * 4 <= u32_max(),
            lo == layout,
            layout == opts.layout_spec(),
            lo.valid(),
            s == lo.cell_scale,
            s >= 1,
            pw == profile.width,
            ph == profile.height,
            cells == pw * ph,
            1 <= n <= u32_max(),
            w == image.width,
            h == image.height,
            image_size_spec(*profile, n, lo) == Ok::<(u32, u32), GlyphixError>((w, h)),
            os == Seq::new(n as nat, |j: int| origin_spec(*profile, j as usize, n, lo)->Ok_0),
            rs == blocks_spec(*profile, image@, s, os),
            parse_ready(*profile, image@, *opts, n),
            i <= n,
            glyphs@.len() == i,
            i > 0 ==> origins_spec(*profile, n as nat, n, lo) == Ok::<Seq<(u32, u32)>, GlyphixError>(os),
            forall|j: int| 0 <= j < i * cells ==> (#[trigger] rs[j]) is Ok,
            forall|j: int| 0 <= j < i ==> (#[trigger] glyphs@[j])@ == glyph_of_blocks(*profile, rs, j),
        decreases n - i,
    {
        let (ox, oy) = match glyph_origin(profile, i, n, &layout) {
            Ok(xy) => xy,
            Err(e) => {
                proof {
                    // Steps are shared by all glyphs, so only the first glyph can fail here.
                    assert(i == 0) by {
                        if i > 0 {
                            crate::layout::lemma_origin_ok(*profile, n, lo, w, h, i);
                        }
                    }
                    let oe = origin_spec(*profile, i, n, lo);
                    assert(origins_spec(*profile, 0, n, lo) == Ok::<Seq<(u32, u32)>, GlyphixError>(Seq::empty()));
                    assert(origins_spec(*profile, 1, n, lo) == Err::<Seq<(u32, u32)>, GlyphixError>(oe->Err_0));
                    crate::layout::lemma_origins_error_sticks(*profile, 1, n as nat, n, lo);
                }
                return Err(e);
            },
        };
        proof {
            lemma_origins_all_ok(*profile, n, lo, w, h, n as nat);
            assert(os[i as int] == (ox, oy));
            crate::layout::lemma_tile_in_image(*profile, n, lo, w, h, i, ox, oy);
        }
        let mut grid = Grid::from_profile(profile);
        let mut cy: u32 = 0;
        while cy < ph
            invariant
                profile.wf(),
                image.wf(),
                image.width * image.height * 4 <= u32_max(),
                s >= 1,
                pw == profile.width,
                ph == profile.height,
                cells == pw * ph,
                i < n,
                os[i as int] == (ox, oy),
                os.len() == n,
                rs == blocks_spec(*profile, image@, s, os),
                parse_ready(*profile, image@, *opts, n),
                origins_spec(*profile, n as nat, n, lo) == Ok::<Seq<(u32, u32)>, GlyphixError>(os),
                lo == opts.layout_spec(),
                s == lo.cell_scale,
                ox + pw * s <= image.width,
                oy + ph * s <= image.height,
                forall|j: int| 0 <= j < i * cells ==> (#[trigger] rs[j]) is Ok,
                cy <= ph,
                grid@.wf(),
                grid@.width == pw,
                grid@.height == ph,
                forall|k: int| 0 <= k < cy * pw ==> (#[trigger] rs[i * cells + k]) is Ok,
                forall|k: int| 0 <= k < cells ==> #[trigger] grid@.cells[k] == if k < cy * pw { rs[i * cells + k]->Ok_0 } else { 0u32 },
            decreases ph - cy,
        {
            let mut cx: u32 = 0;
            while cx < pw
                invariant
                    profile.wf(),
                    image.wf(),
                    image.width * image.height * 4 <= u32_max(),
                    s >= 1,
                    pw == profile.width,
                    ph == profile.height,
                    cells == pw * ph,
                    i < n,
                    os[i as int] == (ox, oy),
                    os.len() == n,
                    rs == blocks_spec(*profile, image@, s, os),
                    parse_ready(*profile, image@, *opts, n),
                    origins_spec(*profile, n as nat, n, lo) == Ok::<Seq<(u32, u32)>, GlyphixError>(os),
                    lo == opts.layout_spec(),
                    s == lo.cell_scale,
                    ox + pw * s <= image.width,
                    oy + ph * s <= image.height,
                    forall|j: int| 0 <= j < i * cells ==> (#[trigger] rs[j]) is Ok,
                    cy < ph,
                    cx <= pw,
                    grid@.wf(),
                    grid@.width == pw,
                    grid@.height == ph,
                    forall|k: int| 0 <= k < cy * pw + cx ==> (#[trigger] rs[i * cells + k]) is Ok,
                    forall|k: int| 0 <= k < cells ==> #[trigger] grid@.cells[k] == if k < cy * pw + cx { rs[i * cells + k]->Ok_0 } else { 0u32 },
                decreases pw - cx,
            {
                let ghost k = cy * pw + cx;
                let ghost j = i * cells + k;
                proof {
                    assert((cx + 1) * s <= pw * s) by (nonlinear_arith)
                        requires
                            cx + 1 <= pw,
                    ;
                    assert((cy + 1) * s <= ph * s) by (nonlinear_arith)
                        requires
                            cy + 1 <= ph,
                    ;
                    assert((cx + 1) * s == cx * s + s) by (nonlinear_arith);
                    assert((cy + 1) * s == cy * s + s) by (nonlinear_arith);
                    assert(k < cells) by (nonlinear_arith)
                        requires
                            k == cy * pw + cx,
                            cx < pw,
                            cy < ph,
                            cells == pw * ph,
                    ;
                    assert(j < n * cells) by (nonlinear_arith)
                        requires
                            j == i * cells + k,
                            0 <= k < cells,
                            0 <= i,
                            i + 1 <= n,
                    ;
                    assert forall|t: int| 0 <= t < j implies (#[trigger] rs[t]) is Ok by {
                        if t >= i * cells {
                            assert(rs[i * cells + (t - i * cells)] is Ok);
                        }
                    }
                    vstd::arithmetic::div_mod::lemma_fundamental_div_mod_converse(j, cells, i as int, k);
                    vstd::arithmetic::div_mod::lemma_fundamental_div_mod_converse(k, pw as int, cy as int, cx as int);
                    assert(rs[j] == block_index(*profile, image@, ox + cx * s, oy + cy * s, s as int));
                }
                let px = ox + cx * s;
                let py = oy + cy * s;
                let rgb = match sample_solid_block(image, px, py, s) {
                    Ok(c) => c,
                    Err(e) => {
                        proof {
                            lemma_first_err_at(rs, j);
                            assert(opts.layout_spec().valid());
                            assert(crate::layout::infer_spec(*profile, image.width, image.height, opts.layout_spec()) == Ok::<usize, GlyphixError>(n));
                            assert(image_size_spec(*profile, n, opts.layout_spec()) == Ok::<(u32, u32), GlyphixError>((image.width, image.height)));
                            assert(origins_spec(*profile, n as nat, n, opts.layout_spec()) == Ok::<Seq<(u32, u32)>, GlyphixError>(os));
                            assert(opts.layout_spec().cell_scale == s);
                            assert(parse_spec(*profile, image@, *opts) == read_blocks_spec(*profile, image@, s, os));
                            assert(read_blocks_spec(*profile, image@, s, os) == Err::<Seq<GridView>, GlyphixError>(rs[j]->Err_0));
                        }
                        return Err(e);
                    },
                };
                let idx = match crate::color::rgb_to_index(profile.palette_size, rgb) {
                    Ok(v) => v,
                    Err(e) => {
                        proof {
                            lemma_first_err_at(rs, j);
                            assert(parse_spec(*profile, image@, *opts) == read_blocks_spec(*profile, image@, s, os));
                            assert(read_blocks_spec(*profile, image@, s, os) == Err::<Seq<GridView>, GlyphixError>(rs[j]->Err_0));
                        }
                        return Err(e);
                    },
                };
                let ghost before = grid@;
                grid.set(cx, cy, idx)?;
                proof {
                    crate::grid::lemma_index_bound(pw as int, ph as int, cx as int, cy as int);
                    assert(cy * pw + cx == k);
                }
                cx = cx + 1;
            }
            proof {
                assert(cy * pw + pw == (cy + 1) * pw) by (nonlinear_arith);
            }
            cy = cy + 1;
        }
        proof {
            assert(ph * pw == cells) by (nonlinear_arith)
                requires
                    cells == pw * ph,
            ;
            assert(cy * pw == cells);
            assert(grid@.cells =~= glyph_of_blocks(*profile, rs, i as int).cells);
            assert(grid@ == glyph_of_blocks(*profile, rs, i as int));
            assert((i + 1) * cells == i * cells + cells) by (nonlinear_arith);
            assert forall|j: int| 0 <= j < (i + 1) * cells implies (#[trigger] rs[j]) is Ok by {
                if j >= i * cells {
                    let k = j - i * cells;
                    assert(0 <= k < cy * pw);
                    assert(rs[i * cells + k] is Ok);
                    assert(i * cells + k == j);
                }
            }
        }
        glyphs.push(grid);
        i = i + 1;
    }
    proof {
        lemma_first_err_none(rs);
        assert(rs.len() == n * cells);
        assert(parse_spec(*profile, image@, *opts) == read_blocks_spec(*profile, image@, s, os));
        assert(views(glyphs@) =~= Seq::new(n as nat, |i: int| glyph_of_blocks(*profile, rs, i)));
        let want = Seq::new(os.len(), |i: int| GridView {
            width: profile.width,
            height: profile.height,
            cells: Seq::new(profile.cells(), |k: int| rs[i * profile.cells() + k]->Ok_0),
        });
        assert(read_blocks_spec(*profile, image@, s, os) == Ok::<Seq<GridView>, GlyphixError>(want));
        assert(want =~= views(glyphs@));
    }
    Ok(glyphs)
}


/// SVG element of one rectangle.
pub open spec fn svg_rect_text(r: PaintRect) -> Seq<char> {
    "<rect x=\""@ + decimal(r.x as nat) + "\" y=\""@ + decimal(r.y as nat) + "\" width=\""@ + decimal(r.w as nat)
        + "\" height=\""@ + decimal(r.h as nat) + "\" fill=\"#"@ + hex2(r.r) + hex2(r.g) + hex2(r.b) + "\"/>"@ + "\n"@
}

/// SVG elements of rectangles, in order.
pub open spec fn svg_rects_text(rs: Seq<PaintRect>) -> Seq<char>
    decreases rs.len(),
{
    if rs.len() == 0 {
        Seq::empty()
    } else {
        svg_rects_text(rs.drop_last()) + svg_rect_text(rs.last())
    }
}

/// SVG elements of the rectangles that are not black (the background is black).
pub open spec fn svg_cells_text(rs: Seq<PaintRect>) -> Seq<char>
    decreases rs.len(),
{
    if rs.len() == 0 {
        Seq::empty()
    } else {
        svg_cells_text(rs.drop_last()) + if rs.last().r == 0 && rs.last().g == 0 && rs.last().b == 0 {
            Seq::empty()
        } else {
            svg_rect_text(rs.last())
        }
    }
}

/// Document head: XML declaration, `<svg>` element and the black background.
pub open spec fn svg_head(w: u32, h: u32) -> Seq<char> {
    "<?xml version=\"1.0\" encoding=\"UTF-8\"?>"@ + "\n"@
        + "<svg xmlns=\"http://www.w3.org/2000/svg\" width=\""@ + decimal(w as nat) + "\" height=\""@ + decimal(h as nat)
        + "\" shape-rendering=\"crispEdges\">"@ + "\n"@
        + "<rect width=\""@ + decimal(w as nat) + "\" height=\""@ + decimal(h as nat) + "\" fill=\"#000000\"/>"@ + "\n"@
}

/// The SVG document of a composition: separator bars first, then every non-black
/// cell block.
pub open spec fn svg_spec(p: GlyphProfile, gs: Seq<GridView>, lo: LayoutOptions, w: u32, h: u32, os: Seq<(u32, u32)>) -> Seq<char> {
    let bars = match lo.separator {
        Some(sep) => bars_rects(p, lo, sep, os, gs.len() as int, gs.len()),
        None => Seq::empty(),
    };
    svg_head(w, h) + svg_rects_text(bars) + svg_cells_text(glyphs_rects(p, gs, os, lo.cell_scale, gs.len())) + "</svg>\n"@
}

/// A rendered SVG document agrees with the specified composition.
pub open spec fn svg_agrees(
    r: Result<String>,
    frame: Result<(Seq<GridView>, u32, u32, Seq<(u32, u32)>)>,
    p: GlyphProfile,
    lo: LayoutOptions,
) -> bool {
    match (r, frame) {
        (Ok(text), Ok((ps, w, h, os))) => text@ == svg_spec(p, ps, lo, w, h, os),
        (Err(e1), Err(e2)) => e1.agrees(e2),
        _ => false,
    }
}

/// Append the SVG element of a rectangle.
fn push_svg_rect(out: &mut String, r: PaintRect)
    ensures
        final(out)@ == old(out)@ + svg_rect_text(r),
{
    out.append("<rect x=\"");
    push_decimal(out, r.x as u64);
    out.append("\" y=\"");
    push_decimal(out, r.y as u64);
    out.append("\" width=\"");
    push_decimal(out, r.w as u64);
    out.append("\" height=\"");
    push_decimal(out, r.h as u64);
    out.append("\" fill=\"#");
    push_hex2(out, r.r);
    push_hex2(out, r.g);
    push_hex2(out, r.b);
    out.append("\"/>");
    out.append("\n");
    assert(final(out)@ =~= old(out)@ + svg_rect_text(r));
}

pub proof fn lemma_svg_rects_concat(a: Seq<PaintRect>, b: Seq<PaintRect>)
    ensures
        svg_rects_text(a + b) == svg_rects_text(a) + svg_rects_text(b),
    decreases b.len(),
{
    if b.len() == 0 {
        assert(a + b =~= a);
        assert(svg_rects_text(a) + svg_rects_text(b) =~= svg_rects_text(a));
    } else {
        lemma_svg_rects_concat(a, b.drop_last());
        assert((a + b).drop_last() =~= a + b.drop_last());
        assert(svg_rects_text(a + b) =~= svg_rects_text(a) + svg_rects_text(b));
    }
}

pub proof fn lemma_svg_cells_concat(a: Seq<PaintRect>, b: Seq<PaintRect>)
    ensures
        svg_cells_text(a + b) == svg_cells_text(a) + svg_cells_text(b),
    decreases b.len(),
{
    if b.len() == 0 {
        assert(a + b =~= a);
        assert(svg_cells_text(a) + svg_cells_text(b) =~= svg_cells_text(a));
    } else {
        lemma_svg_cells_concat(a, b.drop_last());
        assert((a + b).drop_last() =~= a + b.drop_last());
        assert(svg_cells_text(a + b) =~= svg_cells_text(a) + svg_cells_text(b));
    }
}

/// Append the SVG bars drawn after glyph `i` of `n` at `(ox, oy)`.
fn push_svg_bars(
    out: &mut String,
    profile: &GlyphProfile,
    layout: &LayoutOptions,
    sep: Separator,
    i: usize,
    n: usize,
    ox: u32,
    oy: u32,
    gw: u32,
    gh: u32,
)
    requires
        layout.valid(),
        layout.separator == Some(sep),
        1 <= n <= u32_max(),
        i < n,
        gw == profile.width * layout.cell_scale,
        gh == profile.height * layout.cell_scale,
        crate::layout::cell_of(layout.layout, i).1 < layout.layout.rows_spec(n),
        !crate::layout::last_in_row(layout.layout, i as int, n as int) ==> ox + gw <= u32_max(),
        crate::layout::cell_of(layout.layout, i).1 + 1 < layout.layout.rows_spec(n) ==> oy + gh <= u32_max(),
    ensures
        final(out)@ == old(out)@ + svg_rects_text(bar_rects(*profile, *layout, sep, i as int, n as int, ox, oy)),
{
    let c = sep.color;
    let (col, row) = match layout.layout {
        GlyphLayout::HorizontalStrip => (i as u32, 0u32),
        GlyphLayout::Grid { columns } => {
            let k = i as u32;
            (k % columns, k / columns)
        },
    };
    let rows = layout.layout.rows_for(n);
    let last_in_row = match layout.layout {
        GlyphLayout::HorizontalStrip => i + 1 >= n,
        GlyphLayout::Grid { columns } => col + 1 >= columns || i + 1 >= n,
    };
    let ghost start = out@;
    let ghost right: Seq<PaintRect> = Seq::empty();
    if !last_in_row {
        let rect = PaintRect { x: ox + gw, y: oy, w: sep.thickness, h: gh, r: c[0], g: c[1], b: c[2] };
        push_svg_rect(out, rect);
        proof {
            right = seq![rect];
            assert(right.drop_last() =~= Seq::<PaintRect>::empty());
        }
    }
    let ghost mid = out@;
    let ghost below: Seq<PaintRect> = Seq::empty();
    if row + 1 < rows {
        let rect = PaintRect { x: ox, y: oy + gh, w: gw, h: sep.thickness, r: c[0], g: c[1], b: c[2] };
        push_svg_rect(out, rect);
        proof {
            below = seq![rect];
            assert(below.drop_last() =~= Seq::<PaintRect>::empty());
        }
    }
    proof {
        assert(svg_rects_text(Seq::<PaintRect>::empty()) == Seq::<char>::empty());
        assert(mid =~= start + svg_rects_text(right));
        assert(out@ =~= mid + svg_rects_text(below));
        let bars = bar_rects(*profile, *layout, sep, i as int, n as int, ox, oy);
        assert(bars =~= right + below);
        lemma_svg_rects_concat(right, below);
        assert(out@ =~= start + svg_rects_text(bars));
    }
}

/// Append the SVG elements of the non-black cell blocks of one glyph.
fn push_svg_cells(out: &mut String, profile: &GlyphProfile, g: &Grid, ox: u32, oy: u32, s: u32) -> (r: Result<()>)
    requires
        profile.wf(),
        fits_profile(g@, *profile),
        ox + profile.width * s <= u32_max(),
        oy + profile.height * s <= u32_max(),
    ensures
        r is Ok,
        final(out)@ == old(out)@ + svg_cells_text(glyph_rects(*profile, g@, ox, oy, s)),
{
    let ghost rects = glyph_rects(*profile, g@, ox, oy, s);
    let ghost before = out@;
    let pw = profile.width;
    let ph = profile.height;
    let mut cy: u32 = 0;
    assert(rects.take(0) =~= Seq::<PaintRect>::empty());
    while cy < ph
        invariant
            profile.wf(),
            pw == profile.width,
            ph == profile.height,
            fits_profile(g@, *profile),
            ox + pw * s <= u32_max(),
            oy + ph * s <= u32_max(),
            rects == glyph_rects(*profile, g@, ox, oy, s),
            cy <= ph,
            out@ == before + svg_cells_text(rects.take(cy * pw)),
        decreases ph - cy,
    {
        let mut cx: u32 = 0;
        while cx < pw
            invariant
                profile.wf(),
                pw == profile.width,
                ph == profile.height,
                fits_profile(g@, *profile),
                ox + pw * s <= u32_max(),
                oy + ph * s <= u32_max(),
                rects == glyph_rects(*profile, g@, ox, oy, s),
                cy < ph,
                cx <= pw,
                out@ == before + svg_cells_text(rects.take(cy * pw + cx)),
            decreases pw - cx,
        {
            let idx = g.get(cx, cy)?;
            proof {
                crate::grid::lemma_index_bound(pw as int, ph as int, cx as int, cy as int);
            }
            let c = index_to_rgb(profile.palette_size, idx)?;
            proof {
                let t = cy * pw + cx;
                assert(t < pw * ph) by (nonlinear_arith)
                    requires
                        t == cy * pw + cx,
                        cx < pw,
                        cy < ph,
                ;
                vstd::arithmetic::div_mod::lemma_fundamental_div_mod_converse(t as int, pw as int, cy as int, cx as int);
                assert(rects.take(t + 1).drop_last() =~= rects.take(t as int));
                assert(rects.take(t + 1).last() == rects[t as int]);
                assert((cx + 1) * s <= pw * s) by (nonlinear_arith)
                    requires
                        cx + 1 <= pw,
                ;
                assert((cy + 1) * s <= ph * s) by (nonlinear_arith)
                    requires
                        cy + 1 <= ph,
                ;
                assert((cx + 1) * s == cx * s + s) by (nonlinear_arith);
                assert((cy + 1) * s == cy * s + s) by (nonlinear_arith);
            }
            if c[0] == 0 && c[1] == 0 && c[2] == 0 {
                proof {
                    let t = cy * pw + cx;
                    assert(out@ =~= before + svg_cells_text(rects.take(t + 1)));
                }
                cx = cx + 1;
                continue;
            }
            let px = ox + cx * s;
            let py = oy + cy * s;
            let rect = PaintRect { x: px, y: py, w: s, h: s, r: c[0], g: c[1], b: c[2] };
            proof {
                assert(rects[(cy * pw + cx) as int] == rect);
            }
            push_svg_rect(out, rect);
            proof {
                let t = cy * pw + cx;
                assert(out@ =~= before + svg_cells_text(rects.take(t + 1)));
            }
            cx = cx + 1;
        }
        proof {
            assert(cy * pw + pw == (cy + 1) * pw) by (nonlinear_arith);
        }
        cy = cy + 1;
    }
    proof {
        assert(ph * pw == profile.cells()) by (nonlinear_arith)
            requires
                pw == profile.width,
                ph == profile.height,
        ;
        assert(rects.take((ph * pw) as int) =~= rects);
    }
    Ok(())
}

/// Render glyphs to an SVG document (exact axis-aligned rects, no anti-aliasing).
pub fn render_svg(profile: &GlyphProfile, glyphs: &[Grid], opts: &RenderOptions) -> (r: Result<String>)
    requires
        profile.wf(),
        forall|j: int| 0 <= j < glyphs@.len() ==> (#[trigger] glyphs@[j])@.wf(),
        compose_fits(views(glyphs@), *opts),
    ensures
        svg_agrees(r, render_frame(*profile, views(glyphs@), *opts), *profile, opts.layout_spec()),
{
    let ghost gv = views(glyphs@);
    opts.validate()?;
    let drawn = prepare_glyphs(profile, glyphs, opts)?;
    let ghost ps = views(drawn@);
    let layout = opts.to_layout();
    let n = drawn.len();
    let (width, height) = image_size(profile, n, &layout)?;
    let s = opts.cell_scale;
    let (gw, gh) = crate::layout::glyph_pixel_size(profile, s)?;
    let ghost lo = layout;
    proof {
        assert(prepare_spec(*profile, gv, *opts) == Ok::<Seq<GridView>, GlyphixError>(ps));
        assert(ps.len() == n);
        assert(n <= u32_max());
        assert(image_size_spec(*profile, n, lo) == Ok::<(u32, u32), GlyphixError>((width, height)));
    }
    let ghost os = Seq::new(n as nat, |j: int| origin_spec(*profile, j as usize, n, lo)->Ok_0);
    let mut out = String::new();
    out.append("<?xml version=\"1.0\" encoding=\"UTF-8\"?>");
    out.append("\n");
    out.append("<svg xmlns=\"http://www.w3.org/2000/svg\" width=\"");
    push_decimal(&mut out, width as u64);
    out.append("\" height=\"");
    push_decimal(&mut out, height as u64);
    out.append("\" shape-rendering=\"crispEdges\">");
    out.append("\n");
    out.append("<rect width=\"");
    push_decimal(&mut out, width as u64);
    out.append("\" height=\"");
    push_decimal(&mut out, height as u64);
    out.append("\" fill=\"#000000\"/>");
    out.append("\n");
    proof {
        assert(out@ =~= svg_head(width, height));
    }
    let ghost head = out@;
    // Separator bars.
    let ghost mut origins_ok = false;
    if let Some(sep) = layout.separator {
        let c = sep.color;
        let mut i: usize = 0;
        while i < n
            invariant
                layout.valid(),
                lo == layout,
                layout == opts.layout_spec(),
                layout.separator == Some(sep),
                c == sep.color,
                1 <= n <= u32_max(),
                ps.len() == n,
                prepare_spec(*profile, gv, *opts) == Ok::<Seq<GridView>, GlyphixError>(ps),
                gv == views(glyphs@),
                image_size_spec(*profile, n, lo) == Ok::<(u32, u32), GlyphixError>((width, height)),
                os == Seq::new(n as nat, |j: int| origin_spec(*profile, j as usize, n, lo)->Ok_0),
                gw == profile.width * layout.cell_scale,
                gh == profile.height * layout.cell_scale,
                i <= n,
                i > 0 ==> origins_spec(*profile, n as nat, n, lo) == Ok::<Seq<(u32, u32)>, GlyphixError>(os),
                out@ == head + svg_rects_text(bars_rects(*profile, layout, sep, os, n as int, i as nat)),
            decreases n - i,
        {
            let (ox, oy) = match glyph_origin(profile, i, n, &layout) {
                Ok(xy) => xy,
                Err(e) => {
                    proof {
                        assert(i == 0) by {
                            if i > 0 {
                                crate::layout::lemma_origin_ok(*profile, n, lo, width, height, i);
                            }
                        }
                        let oe = origin_spec(*profile, i, n, lo);
                        assert(origins_spec(*profile, 0, n, lo) == Ok::<Seq<(u32, u32)>, GlyphixError>(Seq::empty()));
                        assert(origins_spec(*profile, 1, n, lo) == Err::<Seq<(u32, u32)>, GlyphixError>(oe->Err_0));
                        crate::layout::lemma_origins_error_sticks(*profile, 1, n as nat, n, lo);
                        assert(render_frame(*profile, gv, *opts) is Err);
                        assert(render_frame(*profile, gv, *opts)->Err_0 == oe->Err_0);
                    }
                    return Err(e);
                },
            };
            proof {
                lemma_origins_all_ok(*profile, n, lo, width, height, n as nat);
                assert(os[i as int] == (ox, oy));
                crate::layout::lemma_tile_in_image(*profile, n, lo, width, height, i, ox, oy);
            }
            let ghost prev_text = out@;
            push_svg_bars(&mut out, profile, &layout, sep, i, n, ox, oy, gw, gh);
            proof {
                let bars = bar_rects(*profile, layout, sep, i as int, n as int, ox, oy);
                let prev = bars_rects(*profile, layout, sep, os, n as int, i as nat);
                assert(bars_rects(*profile, layout, sep, os, n as int, (i + 1) as nat) == prev + bars);
                lemma_svg_rects_concat(prev, bars);
                assert(out@ =~= head + svg_rects_text(prev + bars));
            }
            i = i + 1;
        }
    }
    let ghost bars_text = out@;
    let mut k: usize = 0;
    while k < n
        invariant
            profile.wf(),
            layout.valid(),
            lo == layout,
            layout == opts.layout_spec(),
            s == layout.cell_scale,
            1 <= n <= u32_max(),
            n == drawn@.len(),
            ps == views(drawn@),
            prepare_spec(*profile, gv, *opts) == Ok::<Seq<GridView>, GlyphixError>(ps),
            gv == views(glyphs@),
            forall|j: int| 0 <= j < drawn@.len() ==> fits_profile((#[trigger] drawn@[j])@, *profile),
            image_size_spec(*profile, n, lo) == Ok::<(u32, u32), GlyphixError>((width, height)),
            os == Seq::new(n as nat, |j: int| origin_spec(*profile, j as usize, n, lo)->Ok_0),
            k <= n,
            (k > 0 || layout.separator is Some) ==> origins_spec(*profile, n as nat, n, lo) == Ok::<Seq<(u32, u32)>, GlyphixError>(os),
            out@ == bars_text + svg_cells_text(glyphs_rects(*profile, ps, os, s, k as nat)),
        decreases n - k,
    {
        let (ox, oy) = match glyph_origin(profile, k, n, &layout) {
            Ok(xy) => xy,
            Err(e) => {
                proof {
                    assert(k == 0) by {
                        if k > 0 {
                            crate::layout::lemma_origin_ok(*profile, n, lo, width, height, k);
                        }
                    }
                    let oe = origin_spec(*profile, k, n, lo);
                    assert(origins_spec(*profile, 0, n, lo) == Ok::<Seq<(u32, u32)>, GlyphixError>(Seq::empty()));
                    assert(origins_spec(*profile, 1, n, lo) == Err::<Seq<(u32, u32)>, GlyphixError>(oe->Err_0));
                    crate::layout::lemma_origins_error_sticks(*profile, 1, n as nat, n, lo);
                    assert(render_frame(*profile, gv, *opts) is Err);
                    assert(render_frame(*profile, gv, *opts)->Err_0 == oe->Err_0);
                }
                return Err(e);
            },
        };
        proof {
            lemma_origins_all_ok(*profile, n, lo, width, height, n as nat);
            assert(os[k as int] == (ox, oy));
            crate::layout::lemma_tile_in_image(*profile, n, lo, width, height, k, ox, oy);
            assert(drawn@[k as int]@ == ps[k as int]);
        }
        let ghost before = out@;
        push_svg_cells(&mut out, profile, &drawn[k], ox, oy, s)?;
        proof {
            let rects = glyph_rects(*profile, ps[k as int], ox, oy, s);
            let prev = glyphs_rects(*profile, ps, os, s, k as nat);
            lemma_svg_cells_concat(prev, rects);
            assert(glyphs_rects(*profile, ps, os, s, (k + 1) as nat) == prev + rects);
        }
        k = k + 1;
    }
    out.append("</svg>\n");
    proof {
        assert(origins_spec(*profile, n as nat, n, lo) == Ok::<Seq<(u32, u32)>, GlyphixError>(os));
        assert(render_frame(*profile, gv, *opts) == Ok::<(Seq<GridView>, u32, u32, Seq<(u32, u32)>), GlyphixError>((ps, width, height, os)));
        if layout.separator is None {
            assert(svg_rects_text(Seq::<PaintRect>::empty()) =~= Seq::<char>::empty());
            assert(bars_text == head);
        }
        assert(out@ =~= svg_spec(*profile, ps, lo, width, height, os));
    }
    Ok(out)
}


/// Encode payload → glyphs → SVG document.
pub fn encode_svg(profile: &GlyphProfile, payload: &[u8], opts: &RenderOptions, encode_opts: EncodeOptions) -> (r: Result<String>)
    requires
        profile.wf(),
        payload@.len() <= u32::MAX ==> frame_fits(*profile, payload@.len(), encode_opts),
        count_fits(glyphs_needed_spec(*profile, payload@.len(), encode_opts), *opts),
    ensures
        match encode_spec(*profile, payload@, encode_opts) {
            Err(e) => r is Err && r->Err_0.agrees(e),
            Ok(gs) => svg_agrees(r, render_frame(*profile, gs, *opts), *profile, opts.layout_spec()),
        },
{
    let glyphs = encode_with(profile, payload, encode_opts)?;
    proof {
        let gs = encode_spec(*profile, payload@, encode_opts)->Ok_0;
        assert(views(glyphs@) == gs);
        assert(gs.len() == glyphs_needed_spec(*profile, payload@.len(), encode_opts));
    }
    render_svg(profile, glyphs.as_slice(), opts)
}


// ----------------------------------------------------------------------------------
// PNG bytes
// ----------------------------------------------------------------------------------

/// The PNG file that `image` writes for an RGBA8 buffer of the given size, or
/// the text (`Display`) of the error it reports.
pub uninterp spec fn png_encoding(width: u32, height: u32, pixels: Seq<u8>) -> core::result::Result<Seq<u8>, Seq<char>>;

/// The size and RGBA8 bytes that `image` reads from encoded image bytes, or the
/// text (`Display`) of the error it reports.
pub uninterp spec fn image_decoding(bytes: Seq<u8>) -> core::result::Result<(u32, u32, Seq<u8>), Seq<char>>;

/// Encodes an RGBA8 buffer as PNG bytes with `image::ImageBuffer::from_raw` and
/// `ImageBuffer::write_to(.., ImageFormat::Png)`. `from_raw` refuses only a buffer
/// shorter than `width × height` pixels, which `requires` rules out. The outcome
/// depends on the size and the bytes alone (`png_encoding`). Bytes written for a buffer of exactly
/// `width × height` pixels and at most 64 MiB read back with
/// `image::load_from_memory` and `to_rgba8` as the same size and pixels; of
/// larger buffers, whose decoding meets the reader's default allocation limit,
/// nothing is claimed.
#[verifier::external_body]
fn png_write(width: u32, height: u32, pixels: &Vec<u8>) -> (r: core::result::Result<Vec<u8>, String>)
    requires
        pixels@.len() >= width * height * 4,
    ensures
        (match r {
            Ok(b) => png_encoding(width, height, pixels@) == Ok::<Seq<u8>, Seq<char>>(b@),
            Err(m) => png_encoding(width, height, pixels@) == Err::<Seq<u8>, Seq<char>>(m@),
        }),
        r matches Ok(b) ==> (pixels@.len() == width * height * 4 && pixels@.len() <= 0x0400_0000
            ==> image_decoding(b@) == Ok::<(u32, u32, Seq<u8>), Seq<char>>((width, height, pixels@))),
{
    match image::ImageBuffer::<image::Rgba<u8>, Vec<u8>>::from_raw(width, height, pixels.clone()) {
        Some(img) => {
            let mut out = std::io::Cursor::new(Vec::new());
            match img.write_to(&mut out, image::ImageFormat::Png) {
                Ok(()) => Ok(out.into_inner()),
                Err(e) => Err(e.to_string()),
            }
        },
        None => Err(String::new()),
    }
}

/// Decodes image bytes with `image::load_from_memory` and converts the picture
/// with `DynamicImage::to_rgba8`: width, height and row-major RGBA bytes. The
/// outcome depends on the bytes alone (`image_decoding`).
#[verifier::external_body]
fn png_read(bytes: &[u8]) -> (r: core::result::Result<(u32, u32, Vec<u8>), String>)
    ensures
        (match r {
            Ok((w, h, px)) => image_decoding(bytes@) == Ok::<(u32, u32, Seq<u8>), Seq<char>>((w, h, px@)),
            Err(m) => image_decoding(bytes@) == Err::<(u32, u32, Seq<u8>), Seq<char>>(m@),
        }),
{
    match image::load_from_memory(bytes) {
        Ok(img) => {
            let rgba = img.to_rgba8();
            let (w, h) = rgba.dimensions();
            Ok((w, h, rgba.into_raw()))
        },
        Err(e) => Err(e.to_string()),
    }
}

/// The error for image bytes that `image` cannot read, given its error text.
pub open spec fn read_error(m: Seq<char>) -> GlyphixError {
    GlyphixError::Io(message("read PNG: "@ + m))
}

/// The canvas drawn for a composition.
pub open spec fn drawn_raster(p: GlyphProfile, ps: Seq<GridView>, lo: LayoutOptions, w: u32, h: u32, os: Seq<(u32, u32)>) -> RasterView {
    RasterView { width: w, height: h, pixels: paint_all(blank_canvas((w * h * 4) as nat), w, render_rects(p, ps, lo, w, h, os)) }
}

/// PNG bytes of an image: a buffer shorter than its size is refused, any other
/// is encoded.
pub open spec fn png_of(img: RasterView) -> Result<Seq<u8>> {
    if img.pixels.len() < img.width * img.height * 4 {
        Err(GlyphixError::InvalidRender(message("RGBA buffer size mismatch for PNG"@)))
    } else {
        match png_encoding(img.width, img.height, img.pixels) {
            Ok(b) => Ok(b),
            Err(m) => Err(GlyphixError::Io(message("write PNG: "@ + m))),
        }
    }
}

/// Encode an RGBA image as PNG bytes (exact pixels).
pub fn rgba_to_png(image: &RgbaImage) -> (r: Result<Vec<u8>>)
    ensures
        bytes_agree(r, png_of(image@)),
        r matches Ok(b) ==> (image.wf() && image.pixels@.len() <= 0x0400_0000
            ==> image_decoding(b@) == Ok::<(u32, u32, Seq<u8>), Seq<char>>((image.width, image.height, image.pixels@))),
{
    assert((image.width as u64) * (image.height as u64) <= 0xffff_fffe_0000_0001u64) by (nonlinear_arith)
        requires
            image.width <= 0xffff_ffffu32,
            image.height <= 0xffff_ffffu32,
    ;
    let area: u64 = (image.width as u64) * (image.height as u64);
    if (image.pixels.len() as u64) / 4 < area {
        return Err(GlyphixError::InvalidRender("RGBA buffer size mismatch for PNG".to_string()));
    }
    match png_write(image.width, image.height, &image.pixels) {
        Ok(b) => Ok(b),
        Err(m) => {
            let mut msg = "write PNG: ".to_string();
            msg.append(m.as_str());
            proof {
                lemma_message(msg);
            }
            Err(GlyphixError::Io(msg))
        },
    }
}

/// Decode PNG (or other enabled image) bytes into an RGBA image.
pub fn png_to_rgba(bytes: &[u8]) -> (r: Result<RgbaImage>)
    ensures
        (match image_decoding(bytes@) {
            Ok((w, h, px)) => r matches Ok(img) && img@ == (RasterView { width: w, height: h, pixels: px }),
            Err(m) => r matches Err(e) && e.agrees(read_error(m)),
        }),
{
    match png_read(bytes) {
        Ok((width, height, pixels)) => Ok(RgbaImage { width, height, pixels }),
        Err(m) => {
            let mut msg = "read PNG: ".to_string();
            msg.append(m.as_str());
            proof {
                lemma_message(msg);
            }
            Err(GlyphixError::Io(msg))
        },
    }
}

/// PNG bytes of a composition: the encoding of its drawn canvas.
pub open spec fn png_spec(p: GlyphProfile, gs: Seq<GridView>, o: RenderOptions) -> Result<Seq<u8>> {
    match render_frame(p, gs, o) {
        Err(e) => Err(e),
        Ok((ps, w, h, os)) => png_of(drawn_raster(p, ps, o.layout_spec(), w, h, os)),
    }
}

/// Encode payload → glyphs → PNG bytes.
pub fn encode_png(profile: &GlyphProfile, payload: &[u8], opts: &RenderOptions, encode_opts: EncodeOptions) -> (r: Result<Vec<u8>>)
    requires
        profile.wf(),
        payload@.len() <= u32::MAX ==> frame_fits(*profile, payload@.len(), encode_opts),
        encode_spec(*profile, payload@, encode_opts) matches Ok(gs) ==> render_fits(*profile, gs, *opts),
    ensures
        match encode_spec(*profile, payload@, encode_opts) {
            Err(e) => r is Err && r->Err_0.agrees(e),
            Ok(gs) => bytes_agree(r, png_spec(*profile, gs, *opts)),
        },
        r matches Ok(b) ==> (encode_spec(*profile, payload@, encode_opts) matches Ok(gs)
            && render_frame(*profile, gs, *opts) matches Ok((ps, w, h, os))
            && (w * h * 4 <= 0x0400_0000 ==> image_decoding(b@) == Ok::<(u32, u32, Seq<u8>), Seq<char>>(
                (w, h, drawn_raster(*profile, ps, opts.layout_spec(), w, h, os).pixels)))),
{
    let glyphs = encode_with(profile, payload, encode_opts)?;
    let img = render_rgba(profile, glyphs.as_slice(), opts)?;
    rgba_to_png(&img)
}

/// Glyphs and payload read from the size and bytes of an RGBA image.
pub open spec fn decode_raster_spec(p: GlyphProfile, img: RasterView, o: RenderOptions) -> Result<Seq<u8>> {
    if img.width * img.height * 4 > u32_max() {
        Err(GlyphixError::InvalidRaster(message("image too large"@)))
    } else if !img.wf() {
        Err(GlyphixError::InvalidRaster(message("RGBA buffer size mismatch"@)))
    } else {
        match parse_spec(p, img, o) {
            Err(e) => Err(e),
            Ok(gs) => decode_spec(p, gs),
        }
    }
}

/// Payload read from PNG bytes.
pub open spec fn decode_png_spec(p: GlyphProfile, bytes: Seq<u8>, o: RenderOptions) -> Result<Seq<u8>> {
    match image_decoding(bytes) {
        Err(m) => Err(read_error(m)),
        Ok((w, h, px)) => decode_raster_spec(p, RasterView { width: w, height: h, pixels: px }, o),
    }
}

/// Read clean PNG bytes → glyphs → payload.
pub fn decode_png(profile: &GlyphProfile, png: &[u8], opts: &RenderOptions) -> (r: Result<Vec<u8>>)
    requires
        profile.wf(),
    ensures
        bytes_agree(r, decode_png_spec(*profile, png@, *opts)),
{
    let img = png_to_rgba(png)?;
    let ghost view = img@;
    let width = img.width;
    let height = img.height;
    assert((width as u64) * (height as u64) <= 0xffff_fffe_0000_0001u64) by (nonlinear_arith)
        requires
            width <= 0xffff_ffffu32,
            height <= 0xffff_ffffu32,
    ;
    let area: u64 = (width as u64) * (height as u64);
    if area > 0x3fff_ffff {
        return Err(GlyphixError::InvalidRaster("image too large".to_string()));
    }
    if img.pixels.len() as u64 != area * 4 {
        return Err(GlyphixError::InvalidRaster("RGBA buffer size mismatch".to_string()));
    }
    proof {
        profile.lemma_wf();
        if crate::layout::grid_shape(*profile, width, height, opts.layout_spec()) is Some {
            crate::layout::lemma_grid_shape_bound(*profile, width, height, opts.layout_spec());
        }
    }
    let glyphs = parse_rgba(profile, &img, opts)?;
    proof {
        let gs = parse_spec(*profile, view, *opts)->Ok_0;
        assert(views(glyphs@) == gs);
        assert forall|j: int| 0 <= j < glyphs@.len() implies (#[trigger] glyphs@[j])@.wf() by {
            assert(glyphs@[j]@ == gs[j]);
        }
    }
    decode(profile, glyphs.as_slice())
}

/// Cell `(cx, cy)` of a glyph drawn at `(ox, oy)` with cell scale `s` is its
/// rectangle `cy·width + cx`, and the element an SVG document writes for it names the block the raster render paints for
/// that cell: it opens with the x attribute `ox + cx·s`, the y attribute
/// `oy + cy·s`, and width and height `s`; the raster rectangle covers exactly the
/// pixels from that corner, `s` across and `s` down.
pub proof fn lemma_svg_cell_element(p: GlyphProfile, g: GridView, ox: u32, oy: u32, s: u32, cx: int, cy: int)
    requires
        0 <= cx < p.width,
        0 <= cy < p.height,
        ox + cx * s <= u32_max(),
        oy + cy * s <= u32_max(),
    ensures
        cy * p.width + cx < p.cells(),
        glyph_rects(p, g, ox, oy, s)[cy * p.width + cx] == cell_rect(p, g, ox, oy, s, cx, cy),
        ("<rect x=\""@ + decimal((ox + cx * s) as nat) + "\" y=\""@ + decimal((oy + cy * s) as nat) + "\" width=\""@
            + decimal(s as nat) + "\" height=\""@ + decimal(s as nat)).is_prefix_of(
            svg_rect_text(cell_rect(p, g, ox, oy, s, cx, cy)),
        ),
        forall|x: int, y: int| #[trigger] covers(cell_rect(p, g, ox, oy, s, cx, cy), x, y)
            <==> (ox + cx * s <= x < ox + cx * s + s && oy + cy * s <= y < oy + cy * s + s),
{
    let r = cell_rect(p, g, ox, oy, s, cx, cy);
    let k = cy * p.width + cx;
    assert(k < p.width * p.height) by (nonlinear_arith)
        requires
            0 <= cx < p.width,
            0 <= cy < p.height,
            k == cy * p.width + cx,
    ;
    vstd::arithmetic::div_mod::lemma_fundamental_div_mod_converse(k, p.width as int, cy, cx);
    assert(0 <= cx * s && 0 <= cy * s) by (nonlinear_arith)
        requires
            0 <= cx,
            0 <= cy,
            s >= 0,
    ;
    assert(r.x == ox + cx * s && r.y == oy + cy * s);
    let a = "<rect x=\""@ + decimal(r.x as nat) + "\" y=\""@ + decimal(r.y as nat) + "\" width=\""@ + decimal(r.w as nat)
        + "\" height=\""@ + decimal(r.h as nat);
    let rest = "\" fill=\"#"@ + hex2(r.r) + hex2(r.g) + hex2(r.b) + "\"/>"@ + "\n"@;
    assert(svg_rect_text(r) =~= a + rest);
    assert(a =~= (a + rest).subrange(0, a.len() as int));
}

/// Rows are spaced by the horizontal gap unless a vertical gap is given: the
/// layout's gaps are `gap` across and `gap_y`, or else `gap`, down. So a 2 × 2
/// grid of glyphs at scale `s` with gap `g`, no vertical gap, margin or
/// separator measures `2·width·s + g` by `2·height·s + g`.
pub proof fn lemma_render_gaps(o: RenderOptions, p: GlyphProfile)
    ensures
        o.layout_spec().gap_x == o.gap,
        o.gap_y is None ==> o.layout_spec().gap_y == o.gap,
        o.gap_y matches Some(g) ==> o.layout_spec().gap_y == g,
        ({
            let sw = p.width * o.cell_scale;
            let sh = p.height * o.cell_scale;
            &&& o.gap_y is None
            &&& o.margin == 0
            &&& o.separator is None
            &&& o.layout == (GlyphLayout::Grid { columns: 2 })
            &&& o.cell_scale >= 1
            &&& 2 * sw + o.gap <= u32_max()
            &&& 2 * sh + o.gap <= u32_max()
        }) ==> image_size_spec(p, 4, o.layout_spec()) == Ok::<(u32, u32), GlyphixError>(
            ((2 * (p.width * o.cell_scale) + o.gap) as u32, (2 * (p.height * o.cell_scale) + o.gap) as u32),
        ),
{
    let lo = o.layout_spec();
    let sw = p.width * o.cell_scale;
    let sh = p.height * o.cell_scale;
    if o.gap_y is None && o.margin == 0 && o.separator is None && o.layout == (GlyphLayout::Grid { columns: 2 })
        && o.cell_scale >= 1 && 2 * sw + o.gap <= u32_max() && 2 * sh + o.gap <= u32_max() {
        assert(lo.valid());
        assert(sw >= 0 && sh >= 0) by (nonlinear_arith)
            requires
                sw == p.width * o.cell_scale,
                sh == p.height * o.cell_scale,
        ;
        assert(crate::layout::pixel_size_spec(p, o.cell_scale) == Ok::<(u32, u32), GlyphixError>((sw as u32, sh as u32)));
        assert(crate::layout::used_columns(lo, 4) == 2);
        assert(lo.layout.rows_spec(4) == 2) by {
            vstd::arithmetic::div_mod::lemma_fundamental_div_mod_converse(4, 2, 2, 0);
        }
        assert(crate::layout::extent(sw as u32, 2, lo.gap_x + lo.sep()) == 2 * sw + o.gap);
        assert(crate::layout::extent(sh as u32, 2, lo.gap_y + lo.sep()) == 2 * sh + o.gap);
    }
}

} // verus!
