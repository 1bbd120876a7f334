//! Multi-glyph composition: strip, grid, margins, gaps, separators.
//!
//! Geometry is pure (no pixels). The render module paints using
//! [`glyph_origins`] / [`image_size`].

use vstd::prelude::*;
use crate::error::{message, GlyphixError, Result, result_agrees};
use crate::grid::{Grid, GridView, views};
use crate::profile::GlyphProfile;
use crate::text::decimal;

verus! {

broadcast use crate::error::lemma_message;

/// `u32::MAX` as a mathematical integer.
pub open spec fn u32_max() -> int {
    0xffff_ffff
}

/// `x - 1`, or `0` for `0`.
pub open spec fn less_one(x: u32) -> int {
    if x == 0 { 0 } else { x - 1 }
}

/// `min(x, u32::MAX)`.
pub open spec fn clamp_u32(x: int) -> int {
    if x > u32_max() { u32_max() } else { x }
}

/// `ceil(x / c)` for `c >= 1`.
pub open spec fn ceil_div_u32(x: u32, c: u32) -> u32 {
    (x / c + if x % c == 0 { 0nat } else { 1nat }) as u32
}

/// How to arrange multiple glyphs in the raster.
#[derive(Debug, Clone, Copy, PartialEq, Eq, Structural)]
#[non_exhaustive]
pub enum GlyphLayout {
    /// Left-to-right single row (default).
    HorizontalStrip,
    /// Left-to-right, wrap to next row after `columns` glyphs.
    /// Rows fill top → bottom. Partial last row is left-aligned.
    Grid {
        /// Glyphs per row (≥ 1).
        columns: u32,
    },
}

impl Default for GlyphLayout {
    fn default() -> (l: Self)
        ensures
            l == GlyphLayout::HorizontalStrip,
    {
        GlyphLayout::HorizontalStrip
    }
}

impl GlyphLayout {
    /// A grid has at least one column.
    pub open spec fn valid(self) -> bool {
        self matches GlyphLayout::Grid { columns } ==> columns >= 1
    }

    /// Columns used for placement of `n` glyphs.
    pub open spec fn columns_spec(self, n: usize) -> u32 {
        match self {
            GlyphLayout::HorizontalStrip => if (n as u32) < 1 { 1u32 } else { n as u32 },
            GlyphLayout::Grid { columns } => columns,
        }
    }

    /// Rows used for `n` glyphs.
    pub open spec fn rows_spec(self, n: usize) -> u32 {
        if n == 0 {
            0
        } else {
            match self {
                GlyphLayout::HorizontalStrip => 1,
                GlyphLayout::Grid { columns } => ceil_div_u32(n as u32, columns),
            }
        }
    }

    /// Grid with the given column count.
    pub fn grid(columns: u32) -> (r: Result<Self>)
        ensures
            r is Ok <==> columns >= 1,
            r matches Ok(l) ==> l == (GlyphLayout::Grid { columns }),
            r matches Err(e) ==> e.agrees(columns_error()),
    {
        if columns == 0 {
            return Err(GlyphixError::InvalidRender("grid columns must be ≥ 1".to_string()));
        }
        Ok(GlyphLayout::Grid { columns })
    }

    /// Columns used for placement (`n` for a strip of `n` glyphs).
    pub fn columns_for(&self, glyph_count: usize) -> (c: u32)
        ensures
            c == self.columns_spec(glyph_count),
    {
        match *self {
            GlyphLayout::HorizontalStrip => {
                let n = glyph_count as u32;
                if n < 1 { 1 } else { n }
            },
            GlyphLayout::Grid { columns } => columns,
        }
    }

    /// Number of rows for `glyph_count` glyphs.
    pub fn rows_for(&self, glyph_count: usize) -> (r: u32)
        requires
            glyph_count > 0 ==> self.valid(),
        ensures
            r == self.rows_spec(glyph_count),
    {
        if glyph_count == 0 {
            return 0;
        }
        match *self {
            GlyphLayout::HorizontalStrip => 1,
            GlyphLayout::Grid { columns } => div_ceil_u32(glyph_count as u32, columns),
        }
    }
}

/// The error for a zero cell scale.
pub open spec fn scale_error() -> GlyphixError {
    GlyphixError::InvalidRender(message("cell_scale (S) must be ≥ 1"@))
}

/// The error for a grid without columns.
pub open spec fn columns_error() -> GlyphixError {
    GlyphixError::InvalidRender(message("grid columns must be ≥ 1"@))
}

/// The error for a separator without thickness.
pub open spec fn separator_error() -> GlyphixError {
    GlyphixError::InvalidRender(message("separator thickness must be ≥ 1"@))
}

/// `ceil(x / c)`.
fn div_ceil_u32(x: u32, c: u32) -> (q: u32)
    requires
        c >= 1,
    ensures
        q == ceil_div_u32(x, c),
{
    let q = x / c;
    if x % c == 0 {
        q
    } else {
        proof {
            vstd::arithmetic::div_mod::lemma_fundamental_div_mod(x as int, c as int);
            assert(q < x) by (nonlinear_arith)
                requires
                    x == c * q + x % c,
                    x % c >= 1,
                    c >= 1,
                    q >= 0,
            ;
        }
        q + 1
    }
}

/// Optional bar drawn between glyphs (in addition to gap).
///
/// Along an axis the step is `glyph_size + gap + separator.thickness`, with the
/// separator rect immediately after each glyph (except after the last in a row/col).
#[derive(Debug, Clone, Copy, PartialEq, Eq)]
pub struct Separator {
    /// Device pixels (≥ 1 when used).
    pub thickness: u32,
    /// sRGB fill for the separator bar.
    pub color: [u8; 3],
}

impl Separator {
    /// Mid-gray bar of the given thickness (visible on black/white binary art).
    pub fn gray(thickness: u32) -> (r: Result<Self>)
        ensures
            r is Ok <==> thickness >= 1,
            r matches Ok(s) ==> s.thickness == thickness && s.color@ == seq![128u8, 128u8, 128u8],
            r matches Err(e) ==> e.agrees(separator_error()),
    {
        if thickness == 0 {
            return Err(GlyphixError::InvalidRender("separator thickness must be ≥ 1".to_string()));
        }
        let color: [u8; 3] = [128, 128, 128];
        assert(color@ =~= seq![128u8, 128u8, 128u8]);
        Ok(Separator { thickness, color })
    }

    /// Custom color bar.
    pub fn new(thickness: u32, color: [u8; 3]) -> (r: Result<Self>)
        ensures
            r is Ok <==> thickness >= 1,
            r matches Ok(s) ==> s.thickness == thickness && s.color == color,
            r matches Err(e) ==> e.agrees(separator_error()),
    {
        if thickness == 0 {
            return Err(GlyphixError::InvalidRender("separator thickness must be ≥ 1".to_string()));
        }
        Ok(Separator { thickness, color })
    }
}

/// Full layout parameters for a glyph composition.
#[derive(Debug, Clone, Copy, PartialEq, Eq)]
pub struct LayoutOptions {
    /// Device pixels per logical cell edge (\(S \ge 1\)).
    pub cell_scale: u32,
    /// Quiet margin around the whole composition (device pixels).
    pub margin: u32,
    /// Horizontal gap between glyphs (device pixels, not including separator).
    pub gap_x: u32,
    /// Vertical gap between rows (device pixels, not including separator).
    pub gap_y: u32,
    /// Arrangement.
    pub layout: GlyphLayout,
    /// Optional separator bars between adjacent glyphs.
    pub separator: Option<Separator>,
}

impl Default for LayoutOptions {
    fn default() -> (o: Self)
        ensures
            o == (LayoutOptions {
                cell_scale: 1,
                margin: 0,
                gap_x: 0,
                gap_y: 0,
                layout: GlyphLayout::HorizontalStrip,
                separator: None,
            }),
    {
        LayoutOptions {
            cell_scale: 1,
            margin: 0,
            gap_x: 0,
            gap_y: 0,
            layout: GlyphLayout::HorizontalStrip,
            separator: None,
        }
    }
}

impl LayoutOptions {
    /// Positive scale, a grid has columns, a separator has thickness.
    pub open spec fn valid(self) -> bool {
        &&& self.cell_scale >= 1
        &&& self.layout.valid()
        &&& (self.separator matches Some(s) ==> s.thickness >= 1)
    }

    /// What checking the options gives: the first broken rule's error.
    pub open spec fn validate_spec(self) -> Result<()> {
        if self.cell_scale == 0 {
            Err(scale_error())
        } else if !self.layout.valid() {
            Err(columns_error())
        } else if self.separator matches Some(s) && s.thickness == 0 {
            Err(separator_error())
        } else {
            Ok(())
        }
    }

    /// Separator thickness, or 0 without a separator.
    pub open spec fn sep(self) -> int {
        match self.separator {
            Some(s) => s.thickness as int,
            None => 0,
        }
    }

    /// Scale-only defaults.
    pub fn scale(cell_scale: u32) -> (r: Result<Self>)
        ensures
            r is Ok <==> cell_scale >= 1,
            r matches Ok(o) ==> o == (LayoutOptions { cell_scale, ..LayoutOptions::default_spec() }),
            r matches Err(e) ==> e.agrees(scale_error()),
    {
        let mut o = Self::default();
        o.cell_scale = cell_scale;
        o.validate()?;
        Ok(o)
    }

    /// The default options.
    pub open spec fn default_spec() -> LayoutOptions {
        LayoutOptions {
            cell_scale: 1,
            margin: 0,
            gap_x: 0,
            gap_y: 0,
            layout: GlyphLayout::HorizontalStrip,
            separator: None,
        }
    }

    /// Horizontal strip with uniform gap.
    pub fn strip(cell_scale: u32, margin: u32, gap: u32) -> (r: Result<Self>)
        ensures
            r is Ok <==> cell_scale >= 1,
            r matches Ok(o) ==> o == (LayoutOptions { cell_scale, margin, gap_x: gap, gap_y: gap, ..LayoutOptions::default_spec() }),
            r matches Err(e) ==> e.agrees(scale_error()),
    {
        let mut o = Self::default();
        o.cell_scale = cell_scale;
        o.margin = margin;
        o.gap_x = gap;
        o.gap_y = gap;
        o.validate()?;
        Ok(o)
    }

    /// Grid layout helper.
    pub fn grid(cell_scale: u32, columns: u32, margin: u32, gap: u32) -> (r: Result<Self>)
        ensures
            r is Ok <==> cell_scale >= 1 && columns >= 1,
            r matches Ok(o) ==> o == (LayoutOptions {
                cell_scale,
                margin,
                gap_x: gap,
                gap_y: gap,
                layout: GlyphLayout::Grid { columns },
                separator: None,
            }),
            r matches Err(e) ==> e.agrees(if columns == 0 { columns_error() } else { scale_error() }),
    {
        let mut o = Self::default();
        o.cell_scale = cell_scale;
        o.margin = margin;
        o.gap_x = gap;
        o.gap_y = gap;
        o.layout = GlyphLayout::grid(columns)?;
        o.validate()?;
        Ok(o)
    }

    /// Check the options.
    pub fn validate(&self) -> (r: Result<()>)
        ensures
            r is Ok <==> self.valid(),
            result_agrees(r, self.validate_spec()),
    {
        if self.cell_scale == 0 {
            return Err(GlyphixError::InvalidRender("cell_scale (S) must be ≥ 1".to_string()));
        }
        if let GlyphLayout::Grid { columns } = self.layout {
            if columns == 0 {
                return Err(GlyphixError::InvalidRender("grid columns must be ≥ 1".to_string()));
            }
        }
        if let Some(sep) = self.separator {
            if sep.thickness == 0 {
                return Err(GlyphixError::InvalidRender("separator thickness must be ≥ 1".to_string()));
            }
        }
        Ok(())
    }

    /// Separator thickness or 0.
    pub fn sep_thickness(&self) -> (t: u32)
        ensures
            t == self.sep(),
    {
        match self.separator {
            Some(s) => s.thickness,
            None => 0,
        }
    }
}

/// Device size of one glyph tile (without margin/gap/separator).
pub open spec fn pixel_size_spec(p: GlyphProfile, scale: u32) -> Result<(u32, u32)> {
    if scale == 0 {
        Err(scale_error())
    } else if p.width * scale > u32_max() {
        Err(GlyphixError::InvalidRender(message("width*scale overflow"@)))
    } else if p.height * scale > u32_max() {
        Err(GlyphixError::InvalidRender(message("height*scale overflow"@)))
    } else {
        Ok(((p.width * scale) as u32, (p.height * scale) as u32))
    }
}

/// Step between glyph origins on X.
pub open spec fn step_x_spec(p: GlyphProfile, o: LayoutOptions) -> Result<u32> {
    match pixel_size_spec(p, o.cell_scale) {
        Err(e) => Err(e),
        Ok((gw, _)) => if gw + o.gap_x + o.sep() > u32_max() {
            Err(GlyphixError::InvalidRender(message("step_x overflow"@)))
        } else {
            Ok((gw + o.gap_x + o.sep()) as u32)
        },
    }
}

/// Step between glyph origins on Y.
pub open spec fn step_y_spec(p: GlyphProfile, o: LayoutOptions) -> Result<u32> {
    match pixel_size_spec(p, o.cell_scale) {
        Err(e) => Err(e),
        Ok((_, gh)) => if gh + o.gap_y + o.sep() > u32_max() {
            Err(GlyphixError::InvalidRender(message("step_y overflow"@)))
        } else {
            Ok((gh + o.gap_y + o.sep()) as u32)
        },
    }
}

/// Columns actually occupied by `n` glyphs.
pub open spec fn used_columns(o: LayoutOptions, n: usize) -> u32 {
    let c = o.layout.columns_spec(n);
    if c < n as u32 { c } else { n as u32 }
}

/// Content extent along one axis: `count` tiles of `size` with `pitch` between them.
pub open spec fn extent(size: u32, count: u32, pitch: int) -> int {
    size * count + less_one(count) * pitch
}

/// Full image dimensions for `n` glyphs.
pub open spec fn image_size_spec(p: GlyphProfile, n: usize, o: LayoutOptions) -> Result<(u32, u32)> {
    if !o.valid() {
        Err(o.validate_spec()->Err_0)
    } else if n == 0 {
        Err(GlyphixError::EmptyGlyphSequence)
    } else {
        match pixel_size_spec(p, o.cell_scale) {
            Err(e) => Err(e),
            Ok((gw, gh)) => {
                let cw = extent(gw, used_columns(o, n), o.gap_x + o.sep());
                let ch = extent(gh, o.layout.rows_spec(n), o.gap_y + o.sep());
                let m2 = clamp_u32(2 * o.margin);
                if o.gap_x + o.sep() > u32_max() || cw > u32_max() {
                    Err(GlyphixError::InvalidRender(message("content width overflow"@)))
                } else if o.gap_y + o.sep() > u32_max() || ch > u32_max() {
                    Err(GlyphixError::InvalidRender(message("content height overflow"@)))
                } else if cw + m2 > u32_max() {
                    Err(GlyphixError::InvalidRender(message("image width overflow"@)))
                } else if ch + m2 > u32_max() {
                    Err(GlyphixError::InvalidRender(message("image height overflow"@)))
                } else {
                    Ok(((cw + m2) as u32, (ch + m2) as u32))
                }
            },
        }
    }
}

/// Text of the error for a glyph index past the glyph count.
pub open spec fn index_range_text(i: nat, n: nat) -> Seq<char> {
    "glyph index "@ + decimal(i) + " out of range for count "@ + decimal(n)
}

/// Column and row of glyph `i` in reading order.
pub open spec fn cell_of(l: GlyphLayout, i: usize) -> (u32, u32) {
    match l {
        GlyphLayout::HorizontalStrip => (i as u32, 0u32),
        GlyphLayout::Grid { columns } => ((i as u32) % columns, (i as u32) / columns),
    }
}

/// Top-left origin of glyph `i` of `n`.
pub open spec fn origin_spec(p: GlyphProfile, i: usize, n: usize, o: LayoutOptions) -> Result<(u32, u32)> {
    if i >= n {
        Err(GlyphixError::InvalidRender(message(index_range_text(i as nat, n as nat))))
    } else {
        match step_x_spec(p, o) {
            Err(e) => Err(e),
            Ok(sx) => match step_y_spec(p, o) {
                Err(e) => Err(e),
                Ok(sy) => {
                    let c = cell_of(o.layout, i);
                    let x = o.margin + c.0 * sx;
                    let y = o.margin + c.1 * sy;
                    if x > u32_max() {
                        Err(GlyphixError::InvalidRender(message("glyph x overflow"@)))
                    } else if y > u32_max() {
                        Err(GlyphixError::InvalidRender(message("glyph y overflow"@)))
                    } else {
                        Ok((x as u32, y as u32))
                    }
                },
            },
        }
    }
}

/// Origins of glyphs `0..k` of `n`, stopping at the first error.
pub open spec fn origins_spec(p: GlyphProfile, k: nat, n: usize, o: LayoutOptions) -> Result<Seq<(u32, u32)>>
    decreases k,
{
    if k == 0 {
        Ok(Seq::empty())
    } else {
        match origins_spec(p, (k - 1) as nat, n, o) {
            Err(e) => Err(e),
            Ok(v) => match origin_spec(p, (k - 1) as usize, n, o) {
                Err(e) => Err(e),
                Ok(xy) => Ok(v.push(xy)),
            },
        }
    }
}

/// Once collecting origins fails, it keeps the first error.
pub proof fn lemma_origins_error_sticks(p: GlyphProfile, k: nat, j: nat, n: usize, o: LayoutOptions)
    requires
        k <= j,
        origins_spec(p, k, n, o) is Err,
    ensures
        origins_spec(p, j, n, o) == origins_spec(p, k, n, o),
    decreases j - k,
{
    if k < j {
        lemma_origins_error_sticks(p, k, (j - 1) as nat, n, o);
    }
}

/// A computed origin list agrees with the specified one.
pub open spec fn origins_agree(r: Result<Vec<(u32, u32)>>, s: Result<Seq<(u32, u32)>>) -> bool {
    match (r, s) {
        (Ok(a), Ok(b)) => a@ == b,
        (Err(e1), Err(e2)) => e1.agrees(e2),
        _ => false,
    }
}

/// Device size of one glyph tile (without margin/gap/separator).
pub fn glyph_pixel_size(profile: &GlyphProfile, scale: u32) -> (r: Result<(u32, u32)>)
    ensures
        result_agrees(r, pixel_size_spec(*profile, scale)),
{
    if scale == 0 {
        return Err(GlyphixError::InvalidRender("cell_scale (S) must be ≥ 1".to_string()));
    }
    let w = match profile.width.checked_mul(scale) {
        Some(w) => w,
        None => return Err(GlyphixError::InvalidRender("width*scale overflow".to_string())),
    };
    let h = match profile.height.checked_mul(scale) {
        Some(h) => h,
        None => return Err(GlyphixError::InvalidRender("height*scale overflow".to_string())),
    };
    Ok((w, h))
}

/// `a + b + c`, or `None` when it does not fit a `u32`.
fn add3(a: u32, b: u32, c: u32) -> (r: Option<u32>)
    ensures
        r is Some <==> a + b + c <= u32_max(),
        r matches Some(v) ==> v == a + b + c,
{
    match a.checked_add(b) {
        Some(ab) => ab.checked_add(c),
        None => None,
    }
}

/// Step between glyph origins on X (glyph width + gap_x + separator).
pub fn step_x(profile: &GlyphProfile, opts: &LayoutOptions) -> (r: Result<u32>)
    ensures
        result_agrees(r, step_x_spec(*profile, *opts)),
{
    let (gw, _) = glyph_pixel_size(profile, opts.cell_scale)?;
    match add3(gw, opts.gap_x, opts.sep_thickness()) {
        Some(v) => Ok(v),
        None => Err(GlyphixError::InvalidRender("step_x overflow".to_string())),
    }
}

/// Step between glyph origins on Y (glyph height + gap_y + separator).
pub fn step_y(profile: &GlyphProfile, opts: &LayoutOptions) -> (r: Result<u32>)
    ensures
        result_agrees(r, step_y_spec(*profile, *opts)),
{
    let (_, gh) = glyph_pixel_size(profile, opts.cell_scale)?;
    match add3(gh, opts.gap_y, opts.sep_thickness()) {
        Some(v) => Ok(v),
        None => Err(GlyphixError::InvalidRender("step_y overflow".to_string())),
    }
}

/// `size * count + (count - 1) * (gap + sep)` with overflow checks.
fn content_extent(size: u32, count: u32, gap: u32, sep: u32) -> (r: Option<u32>)
    ensures
        r is Some <==> gap + sep <= u32_max() && extent(size, count, gap + sep) <= u32_max(),
        r matches Some(v) ==> v == extent(size, count, gap + sep),
{
    let gaps = if count == 0 { 0 } else { count - 1 };
    let pitch = match gap.checked_add(sep) {
        Some(p) => p,
        None => return None,
    };
    let tiles = match size.checked_mul(count) {
        Some(t) => t,
        None => {
            proof {
                assert(less_one(count) * pitch >= 0) by (nonlinear_arith)
                    requires
                        pitch >= 0,
                ;
            }
            return None;
        },
    };
    let bars = match gaps.checked_mul(pitch) {
        Some(b) => b,
        None => {
            proof {
                assert(size * count >= 0) by (nonlinear_arith);
            }
            return None;
        },
    };
    tiles.checked_add(bars)
}

/// `min(2 * margin, u32::MAX)`.
fn double_margin(margin: u32) -> (m: u32)
    ensures
        m == clamp_u32(2 * margin),
{
    if margin > 0x7fff_ffff {
        0xffff_ffff
    } else {
        margin * 2
    }
}

/// Full image dimensions for `glyph_count` glyphs under `opts`.
pub fn image_size(profile: &GlyphProfile, glyph_count: usize, opts: &LayoutOptions) -> (r: Result<(u32, u32)>)
    ensures
        result_agrees(r, image_size_spec(*profile, glyph_count, *opts)),
{
    opts.validate()?;
    if glyph_count == 0 {
        return Err(GlyphixError::EmptyGlyphSequence);
    }
    let (gw, gh) = glyph_pixel_size(profile, opts.cell_scale)?;
    let c = opts.layout.columns_for(glyph_count);
    let n32 = glyph_count as u32;
    let cols = if c < n32 { c } else { n32 };
    let rows = opts.layout.rows_for(glyph_count);
    let sep = opts.sep_thickness();
    let content_w = match content_extent(gw, cols, opts.gap_x, sep) {
        Some(w) => w,
        None => return Err(GlyphixError::InvalidRender("content width overflow".to_string())),
    };
    let content_h = match content_extent(gh, rows, opts.gap_y, sep) {
        Some(h) => h,
        None => return Err(GlyphixError::InvalidRender("content height overflow".to_string())),
    };
    let m2 = double_margin(opts.margin);
    let width = match content_w.checked_add(m2) {
        Some(w) => w,
        None => return Err(GlyphixError::InvalidRender("image width overflow".to_string())),
    };
    let height = match content_h.checked_add(m2) {
        Some(h) => h,
        None => return Err(GlyphixError::InvalidRender("image height overflow".to_string())),
    };
    Ok((width, height))
}

/// Top-left origin of glyph index `i` (0-based reading order).
pub fn glyph_origin(profile: &GlyphProfile, glyph_index: usize, glyph_count: usize, opts: &LayoutOptions) -> (r: Result<(u32, u32)>)
    requires
        opts.layout.valid(),
    ensures
        result_agrees(r, origin_spec(*profile, glyph_index, glyph_count, *opts)),
{
    if glyph_index >= glyph_count {
        let mut msg = "glyph index ".to_string();
        crate::text::push_decimal(&mut msg, glyph_index as u64);
        msg.append(" out of range for count ");
        crate::text::push_decimal(&mut msg, glyph_count as u64);
        return Err(GlyphixError::InvalidRender(msg));
    }
    let sx = step_x(profile, opts)?;
    let sy = step_y(profile, opts)?;
    let (col, row) = match opts.layout {
        GlyphLayout::HorizontalStrip => (glyph_index as u32, 0u32),
        GlyphLayout::Grid { columns } => {
            let i = glyph_index as u32;
            (i % columns, i / columns)
        },
    };
    let x = match col.checked_mul(sx) {
        Some(d) => match opts.margin.checked_add(d) {
            Some(x) => x,
            None => return Err(GlyphixError::InvalidRender("glyph x overflow".to_string())),
        },
        None => return Err(GlyphixError::InvalidRender("glyph x overflow".to_string())),
    };
    let y = match row.checked_mul(sy) {
        Some(d) => match opts.margin.checked_add(d) {
            Some(y) => y,
            None => return Err(GlyphixError::InvalidRender("glyph y overflow".to_string())),
        },
        None => return Err(GlyphixError::InvalidRender("glyph y overflow".to_string())),
    };
    Ok((x, y))
}

/// All glyph origins in order.
pub fn glyph_origins(profile: &GlyphProfile, glyph_count: usize, opts: &LayoutOptions) -> (r: Result<Vec<(u32, u32)>>)
    requires
        opts.layout.valid(),
    ensures
        origins_agree(r, origins_spec(*profile, glyph_count as nat, glyph_count, *opts)),
{
    let mut out: Vec<(u32, u32)> = Vec::new();
    let mut i: usize = 0;
    while i < glyph_count
        invariant
            opts.layout.valid(),
            i <= glyph_count,
            origins_spec(*profile, i as nat, glyph_count, *opts) == Ok::<Seq<(u32, u32)>, GlyphixError>(out@),
        decreases glyph_count - i,
    {
        let xy = match glyph_origin(profile, i, glyph_count, opts) {
            Ok(xy) => xy,
            Err(e) => {
                proof {
                    lemma_origins_error_sticks(*profile, (i + 1) as nat, glyph_count as nat, glyph_count, *opts);
                }
                return Err(e);
            },
        };
        out.push(xy);
        i = i + 1;
    }
    Ok(out)
}


/// Rows of a clean grid image from its inner height.
pub open spec fn grid_rows_spec(ih: int, gh: int, pitch_y: int, sy: int) -> Result<u32> {
    if pitch_y == 0 {
        if ih % gh != 0 {
            Err(GlyphixError::InvalidRaster(message(
                "inner height "@ + decimal(ih as nat) + " not divisible by glyph height "@ + decimal(gh as nat),
            )))
        } else {
            Ok((ih / gh) as u32)
        }
    } else if ih + pitch_y > u32_max() {
        Err(GlyphixError::InvalidRaster(message("height overflow"@)))
    } else if (ih + pitch_y) % sy != 0 {
        Err(GlyphixError::InvalidRaster(message(
            "inner height "@ + decimal(ih as nat) + " does not match grid step "@ + decimal(sy as nat),
        )))
    } else {
        Ok(((ih + pitch_y) / sy) as u32)
    }
}

/// Glyph count of a clean strip image from its inner size.
pub open spec fn strip_count_spec(iw: int, ih: int, gw: int, gh: int, pitch: int, sx: int) -> Result<usize> {
    if ih != gh {
        Err(GlyphixError::InvalidRaster(message(
            "strip height "@ + decimal(ih as nat) + " != glyph height "@ + decimal(gh as nat),
        )))
    } else if pitch == 0 {
        if iw % gw != 0 {
            Err(GlyphixError::InvalidRaster(message(
                "inner width "@ + decimal(iw as nat) + " not divisible by glyph width "@ + decimal(gw as nat),
            )))
        } else if iw / gw == 0 {
            Err(GlyphixError::EmptyGlyphSequence)
        } else {
            Ok((iw / gw) as usize)
        }
    } else if iw + pitch > u32_max() {
        Err(GlyphixError::InvalidRaster(message("width overflow"@)))
    } else if (iw + pitch) % sx != 0 {
        Err(GlyphixError::InvalidRaster(message(
            "inner width "@ + decimal(iw as nat) + " does not match strip step "@ + decimal(sx as nat),
        )))
    } else if (iw + pitch) / sx == 0 {
        Err(GlyphixError::EmptyGlyphSequence)
    } else {
        Ok(((iw + pitch) / sx) as usize)
    }
}

/// Inner image size and tile size once margins and steps check out.
pub open spec fn infer_frame(p: GlyphProfile, w: u32, h: u32, o: LayoutOptions) -> Result<(int, int, int, int)> {
    if !o.valid() {
        Err(o.validate_spec()->Err_0)
    } else {
        match pixel_size_spec(p, o.cell_scale) {
            Err(e) => Err(e),
            Ok((gw, gh)) => {
                let m2 = clamp_u32(2 * o.margin);
                if w < m2 || h < m2 {
                    Err(GlyphixError::InvalidRaster(message("image smaller than margins"@)))
                } else if gw + o.gap_x + o.sep() > u32_max() {
                    Err(GlyphixError::InvalidRender(message("step_x overflow"@)))
                } else if gh + o.gap_y + o.sep() > u32_max() {
                    Err(GlyphixError::InvalidRender(message("step_y overflow"@)))
                } else {
                    Ok((w - m2, h - m2, gw as int, gh as int))
                }
            },
        }
    }
}

/// Rows and columns of a grid image, when reading it gets as far as their product.
pub open spec fn grid_shape(p: GlyphProfile, w: u32, h: u32, o: LayoutOptions) -> Option<(u32, u32)> {
    match (infer_frame(p, w, h, o), o.layout) {
        (Ok((iw, ih, gw, gh)), GlyphLayout::Grid { columns }) => {
            match grid_rows_spec(ih, gh, clamp_u32(o.gap_y + o.sep()), gh + o.gap_y + o.sep()) {
                Ok(rows) => if rows != 0 && extent(gw as u32, columns, clamp_u32(o.gap_x + o.sep())) <= u32_max()
                    && iw == extent(gw as u32, columns, clamp_u32(o.gap_x + o.sep())) {
                    Some((rows, columns))
                } else {
                    None
                },
                Err(_) => None,
            }
        },
        _ => None,
    }
}

/// Glyph count read from a clean image of size `w × h`.
pub open spec fn infer_spec(p: GlyphProfile, w: u32, h: u32, o: LayoutOptions) -> Result<usize> {
    match infer_frame(p, w, h, o) {
        Err(e) => Err(e),
        Ok((iw, ih, gw, gh)) => match o.layout {
            GlyphLayout::HorizontalStrip => strip_count_spec(
                iw,
                ih,
                gw,
                gh,
                clamp_u32(o.gap_x + o.sep()),
                gw + o.gap_x + o.sep(),
            ),
            GlyphLayout::Grid { columns } => {
                match grid_rows_spec(ih, gh, clamp_u32(o.gap_y + o.sep()), gh + o.gap_y + o.sep()) {
                    Err(e) => Err(e),
                    Ok(rows) => {
                        let ew = extent(gw as u32, columns, clamp_u32(o.gap_x + o.sep()));
                        if rows == 0 {
                            Err(GlyphixError::EmptyGlyphSequence)
                        } else if ew > u32_max() {
                            Err(GlyphixError::InvalidRender(message("grid width overflow"@)))
                        } else if iw != ew {
                            Err(GlyphixError::InvalidRaster(message(
                                "grid inner width "@ + decimal(iw as nat) + " != expected "@ + decimal(ew as nat)
                                    + " for "@ + decimal(columns as nat) + " columns"@,
                            )))
                        } else {
                            let n = (rows * columns) as usize;
                            match image_size_spec(p, n, o) {
                                Err(e) => Err(e),
                                Ok((w2, h2)) => if w2 == w && h2 == h {
                                    Ok(n)
                                } else {
                                    Err(GlyphixError::InvalidRaster(message(
                                        "could not infer grid glyph count for image "@ + decimal(w as nat) + "x"@
                                            + decimal(h as nat) + " (rows="@ + decimal(rows as nat) + ", cols="@
                                            + decimal(columns as nat) + ")"@,
                                    )))
                                },
                            }
                        }
                    },
                }
            },
        },
    }
}

/// `min(a + b, u32::MAX)`.
fn saturating_add_u32(a: u32, b: u32) -> (r: u32)
    ensures
        r == clamp_u32(a + b),
{
    match a.checked_add(b) {
        Some(v) => v,
        None => 0xffff_ffff,
    }
}

/// Infer glyph count from image dimensions (clean layout).
pub fn infer_glyph_count(profile: &GlyphProfile, image_w: u32, image_h: u32, opts: &LayoutOptions) -> (r: Result<usize>)
    requires
        profile.width >= 1,
        profile.height >= 1,
        grid_shape(*profile, image_w, image_h, *opts) matches Some((rows, cols)) ==> rows * cols <= u32_max(),
    ensures
        result_agrees(r, infer_spec(*profile, image_w, image_h, *opts)),
{
    opts.validate()?;
    let (gw, gh) = glyph_pixel_size(profile, opts.cell_scale)?;
    let margin2 = double_margin(opts.margin);
    if image_w < margin2 || image_h < margin2 {
        return Err(GlyphixError::InvalidRaster("image smaller than margins".to_string()));
    }
    let inner_w = image_w - margin2;
    let inner_h = image_h - margin2;
    let sep = opts.sep_thickness();
    let step_x = match add3(gw, opts.gap_x, sep) {
        Some(v) => v,
        None => return Err(GlyphixError::InvalidRender("step_x overflow".to_string())),
    };
    let step_y = match add3(gh, opts.gap_y, sep) {
        Some(v) => v,
        None => return Err(GlyphixError::InvalidRender("step_y overflow".to_string())),
    };
    proof {
        assert(gw >= 1) by (nonlinear_arith)
            requires
                gw == profile.width * opts.cell_scale,
                profile.width >= 1,
                opts.cell_scale >= 1,
        ;
        assert(gh >= 1) by (nonlinear_arith)
            requires
                gh == profile.height * opts.cell_scale,
                profile.height >= 1,
                opts.cell_scale >= 1,
        ;
    }
    match opts.layout {
        GlyphLayout::HorizontalStrip => {
            if inner_h != gh {
                let mut msg = "strip height ".to_string();
                crate::text::push_decimal(&mut msg, inner_h as u64);
                msg.append(" != glyph height ");
                crate::text::push_decimal(&mut msg, gh as u64);
                return Err(GlyphixError::InvalidRaster(msg));
            }
            let pitch = saturating_add_u32(opts.gap_x, sep);
            let n: usize = if pitch == 0 {
                if inner_w % gw != 0 {
                    let mut msg = "inner width ".to_string();
                    crate::text::push_decimal(&mut msg, inner_w as u64);
                    msg.append(" not divisible by glyph width ");
                    crate::text::push_decimal(&mut msg, gw as u64);
                    return Err(GlyphixError::InvalidRaster(msg));
                }
                (inner_w / gw) as usize
            } else {
                let numer = match inner_w.checked_add(pitch) {
                    Some(v) => v,
                    None => return Err(GlyphixError::InvalidRaster("width overflow".to_string())),
                };
                if numer % step_x != 0 {
                    let mut msg = "inner width ".to_string();
                    crate::text::push_decimal(&mut msg, inner_w as u64);
                    msg.append(" does not match strip step ");
                    crate::text::push_decimal(&mut msg, step_x as u64);
                    return Err(GlyphixError::InvalidRaster(msg));
                }
                (numer / step_x) as usize
            };
            if n == 0 {
                return Err(GlyphixError::EmptyGlyphSequence);
            }
            Ok(n)
        },
        GlyphLayout::Grid { columns } => {
            let pitch_y = saturating_add_u32(opts.gap_y, sep);
            let rows: u32 = if pitch_y == 0 {
                if inner_h % gh != 0 {
                    let mut msg = "inner height ".to_string();
                    crate::text::push_decimal(&mut msg, inner_h as u64);
                    msg.append(" not divisible by glyph height ");
                    crate::text::push_decimal(&mut msg, gh as u64);
                    return Err(GlyphixError::InvalidRaster(msg));
                }
                inner_h / gh
            } else {
                let numer = match inner_h.checked_add(pitch_y) {
                    Some(v) => v,
                    None => return Err(GlyphixError::InvalidRaster("height overflow".to_string())),
                };
                if numer % step_y != 0 {
                    let mut msg = "inner height ".to_string();
                    crate::text::push_decimal(&mut msg, inner_h as u64);
                    msg.append(" does not match grid step ");
                    crate::text::push_decimal(&mut msg, step_y as u64);
                    return Err(GlyphixError::InvalidRaster(msg));
                }
                numer / step_y
            };
            if rows == 0 {
                return Err(GlyphixError::EmptyGlyphSequence);
            }
            let pitch_x = saturating_add_u32(opts.gap_x, sep);
            let expect_w = match content_extent(gw, columns, pitch_x, 0) {
                Some(v) => v,
                None => return Err(GlyphixError::InvalidRender("grid width overflow".to_string())),
            };
            if inner_w != expect_w {
                let mut msg = "grid inner width ".to_string();
                crate::text::push_decimal(&mut msg, inner_w as u64);
                msg.append(" != expected ");
                crate::text::push_decimal(&mut msg, expect_w as u64);
                msg.append(" for ");
                crate::text::push_decimal(&mut msg, columns as u64);
                msg.append(" columns");
                return Err(GlyphixError::InvalidRaster(msg));
            }
            let n = (rows * columns) as usize;
            let (w, h) = image_size(profile, n, opts)?;
            if w == image_w && h == image_h {
                return Ok(n);
            }
            let mut msg = "could not infer grid glyph count for image ".to_string();
            crate::text::push_decimal(&mut msg, image_w as u64);
            msg.append("x");
            crate::text::push_decimal(&mut msg, image_h as u64);
            msg.append(" (rows=");
            crate::text::push_decimal(&mut msg, rows as u64);
            msg.append(", cols=");
            crate::text::push_decimal(&mut msg, columns as u64);
            msg.append(")");
            Err(GlyphixError::InvalidRaster(msg))
        },
    }
}

/// Glyphs padded with blank glyphs so a grid of `columns` fills whole rows.
pub open spec fn pad_spec(p: GlyphProfile, gs: Seq<GridView>, columns: u32) -> Result<Seq<GridView>> {
    if columns == 0 {
        Err(columns_error())
    } else if gs.len() == 0 {
        Err(GlyphixError::EmptyGlyphSequence)
    } else {
        let target = ceil_div_u32(gs.len() as u32, columns) * columns;
        if target > p.max_glyphs {
            Err(GlyphixError::GlyphCountExceeded { count: target as usize, cap: p.max_glyphs })
        } else {
            let total = if target > gs.len() { target as nat } else { gs.len() };
            Ok(Seq::new(total, |i: int| if i < gs.len() { gs[i] } else { GridView::zeros(p.width, p.height) }))
        }
    }
}

/// Pad a glyph list so a grid layout fills a complete rectangle (last row blank-padded).
pub fn pad_glyphs_for_grid(profile: &GlyphProfile, glyphs: &[Grid], columns: u32) -> (r: Result<Vec<Grid>>)
    requires
        profile.wf(),
        glyphs@.len() >= 1 && columns >= 1 ==> ceil_div_u32(glyphs@.len() as u32, columns) * columns <= u32_max(),
    ensures
        crate::grid::glyphs_agree(r, pad_spec(*profile, views(glyphs@), columns)),
{
    if columns == 0 {
        return Err(GlyphixError::InvalidRender("grid columns must be ≥ 1".to_string()));
    }
    if glyphs.len() == 0 {
        return Err(GlyphixError::EmptyGlyphSequence);
    }
    let rows = div_ceil_u32(glyphs.len() as u32, columns);
    let target = (rows * columns) as usize;
    if target > profile.max_glyphs {
        return Err(GlyphixError::GlyphCountExceeded { count: target, cap: profile.max_glyphs });
    }
    let ghost gs = views(glyphs@);
    let mut out: Vec<Grid> = Vec::new();
    let mut i: usize = 0;
    while i < glyphs.len()
        invariant
            i <= glyphs@.len(),
            gs == views(glyphs@),
            views(out@) == gs.take(i as int),
        decreases glyphs@.len() - i,
    {
        let g = glyphs[i].duplicate();
        let ghost before = views(out@);
        out.push(g);
        proof {
            assert(views(out@) =~= before.push(g@));
            assert(gs.take(i + 1) =~= gs.take(i as int).push(gs[i as int]));
        }
        i = i + 1;
    }
    let ghost total = if target > gs.len() { target as nat } else { gs.len() };
    let ghost want = Seq::new(total, |i: int| if i < gs.len() { gs[i] } else { GridView::zeros(profile.width, profile.height) });
    assert(gs.take(gs.len() as int) =~= gs);
    while out.len() < target
        invariant
            profile.wf(),
            gs.len() <= out@.len() <= total,
            total == if target > gs.len() { target as nat } else { gs.len() },
            want == Seq::new(total, |i: int| if i < gs.len() { gs[i] } else { GridView::zeros(profile.width, profile.height) }),
            views(out@) == want.take(out@.len() as int),
        decreases target - out@.len(),
    {
        let ghost before = views(out@);
        let blank = Grid::from_profile(profile);
        out.push(blank);
        proof {
            assert(views(out@) =~= before.push(blank@));
            assert(want.take(out@.len() as int) =~= want.take(out@.len() - 1).push(want[out@.len() - 1]));
        }
    }
    proof {
        assert(want.take(out@.len() as int) =~= want);
    }
    Ok(out)
}


/// A clean strip image of `n` glyphs is read back as `n` glyphs.
///
/// Beyond a successful image size, the reader needs three more quantities to fit
/// a `u32`, and fails where they do not: `n` itself (the image size counts its
/// columns as `n as u32`), the inner width plus one horizontal pitch (the reader
/// adds them before dividing by the step; that sum is `n * step`), and the
/// vertical step (computed for strips too).
pub proof fn lemma_infer_strip_roundtrip(p: GlyphProfile, n: usize, o: LayoutOptions, w: u32, h: u32)
    requires
        p.width >= 1,
        p.height >= 1,
        o.layout == GlyphLayout::HorizontalStrip,
        1 <= n <= u32_max(),
        image_size_spec(p, n, o) == Ok::<(u32, u32), GlyphixError>((w, h)),
        n * (p.width * o.cell_scale + o.gap_x + o.sep()) <= u32_max(),
        p.height * o.cell_scale + o.gap_y + o.sep() <= u32_max(),
    ensures
        infer_spec(p, w, h, o) == Ok::<usize, GlyphixError>(n),
{
    let gw = p.width * o.cell_scale;
    let gh = p.height * o.cell_scale;
    let pitch = o.gap_x + o.sep();
    let sx = gw + pitch;
    assert(o.valid());
    assert(n as u32 == n);
    assert(used_columns(o, n) == n);
    assert(o.layout.rows_spec(n) == 1);
    let cw = extent(gw as u32, n as u32, pitch);
    assert(cw == n * sx - pitch) by (nonlinear_arith)
        requires
            cw == gw * n + (n - 1) * pitch,
            sx == gw + pitch,
    ;
    assert(extent(gh as u32, 1, o.gap_y + o.sep()) == gh);
    assert(gw >= 1) by (nonlinear_arith)
        requires
            gw == p.width * o.cell_scale,
            p.width >= 1,
            o.cell_scale >= 1,
    ;
    assert(sx <= u32_max()) by (nonlinear_arith)
        requires
            n * sx <= u32_max(),
            n >= 1,
            sx >= 0,
    ;
    if pitch == 0 {
        assert(cw == n * gw);
        vstd::arithmetic::div_mod::lemma_fundamental_div_mod_converse(cw, gw, n as int, 0);
    } else {
        assert(cw + pitch == n * sx);
        vstd::arithmetic::div_mod::lemma_fundamental_div_mod_converse(cw + pitch, sx, n as int, 0);
    }
}

/// A clean grid image of `rows` full rows is read back as `rows × columns` glyphs.
///
/// Beyond a successful image size, the reader needs three more quantities to fit
/// a `u32`, and fails where they do not: the glyph count `rows × columns` (which
/// it computes in `u32`), the horizontal step, and the inner height plus one
/// vertical pitch (added before dividing by the step; that sum is
/// `rows * step`).
pub proof fn lemma_infer_grid_roundtrip(p: GlyphProfile, rows: u32, o: LayoutOptions, w: u32, h: u32)
    requires
        p.width >= 1,
        p.height >= 1,
        o.layout is Grid,
        rows >= 1,
        rows * o.layout->columns <= u32_max(),
        image_size_spec(p, (rows * o.layout->columns) as usize, o) == Ok::<(u32, u32), GlyphixError>((w, h)),
        p.width * o.cell_scale + o.gap_x + o.sep() <= u32_max(),
        rows * (p.height * o.cell_scale + o.gap_y + o.sep()) <= u32_max(),
    ensures
        grid_shape(p, w, h, o) == Some((rows, o.layout->columns)),
        infer_spec(p, w, h, o) == Ok::<usize, GlyphixError>((rows * o.layout->columns) as usize),
{
    let columns = o.layout->columns;
    let n = (rows * columns) as usize;
    let gw = p.width * o.cell_scale;
    let gh = p.height * o.cell_scale;
    let py = o.gap_y + o.sep();
    let sy = gh + py;
    assert(o.valid());
    assert(columns >= 1);
    assert(n >= columns) by (nonlinear_arith)
        requires
            n == rows * columns,
            rows >= 1,
            columns >= 1,
    ;
    assert(n as u32 == n);
    assert(used_columns(o, n) == columns);
    assert(o.layout.rows_spec(n) == rows) by {
        vstd::arithmetic::div_mod::lemma_fundamental_div_mod_converse(n as int, columns as int, rows as int, 0);
    }
    let ch = extent(gh as u32, rows, py);
    assert(ch == rows * sy - py) by (nonlinear_arith)
        requires
            ch == gh * rows + (rows - 1) * py,
            sy == gh + py,
    ;
    assert(gh >= 1) by (nonlinear_arith)
        requires
            gh == p.height * o.cell_scale,
            p.height >= 1,
            o.cell_scale >= 1,
    ;
    assert(sy <= u32_max()) by (nonlinear_arith)
        requires
            rows * sy <= u32_max(),
            rows >= 1,
            sy >= 0,
    ;
    if py == 0 {
        assert(ch == rows * gh);
        vstd::arithmetic::div_mod::lemma_fundamental_div_mod_converse(ch, gh, rows as int, 0);
    } else {
        assert(ch + py == rows * sy);
        vstd::arithmetic::div_mod::lemma_fundamental_div_mod_converse(ch + py, sy, rows as int, 0);
    }
}


/// Glyph `i` of `n` is the last of its row (no bar to its right).
pub open spec fn last_in_row(l: GlyphLayout, i: int, n: int) -> bool {
    match l {
        GlyphLayout::HorizontalStrip => i + 1 >= n,
        GlyphLayout::Grid { columns } => (i as u32) % columns + 1 >= columns || i + 1 >= n,
    }
}

/// Glyph `i` of `n` sits in a used column and row; one that does not end its
/// row has a column after it.
pub proof fn lemma_cell_bounds(lo: LayoutOptions, n: usize, i: usize)
    requires
        lo.valid(),
        1 <= n <= u32_max(),
        i < n,
    ensures
        cell_of(lo.layout, i).0 < used_columns(lo, n),
        cell_of(lo.layout, i).1 < lo.layout.rows_spec(n),
        !last_in_row(lo.layout, i as int, n as int) ==> cell_of(lo.layout, i).0 + 1 < used_columns(lo, n),
        used_columns(lo, n) >= 1,
        lo.layout.rows_spec(n) >= 1,
{
    let cols = used_columns(lo, n) as int;
    let rows = lo.layout.rows_spec(n) as int;
    let c = cell_of(lo.layout, i);
    let col = c.0 as int;
    let row = c.1 as int;
    assert(n as u32 == n);
    assert(i as u32 == i);
    match lo.layout {
        GlyphLayout::HorizontalStrip => {
            assert(col == i && row == 0 && cols == n && rows == 1);
        },
        GlyphLayout::Grid { columns } => {
            let cc = columns as int;
            let ni = n as int;
            vstd::arithmetic::div_mod::lemma_fundamental_div_mod(i as int, cc);
            vstd::arithmetic::div_mod::lemma_fundamental_div_mod(ni, cc);
            let q = ni / cc;
            let r = ni % cc;
            assert(q + (if r == 0 { 0int } else { 1int }) <= ni) by (nonlinear_arith)
                requires
                    ni == cc * q + r,
                    0 <= r < cc,
                    cc >= 1,
                    q >= 0,
            ;
            assert((n as u32) / columns == q);
            assert((n as u32) % columns == r);
            assert(rows == q + if r == 0 { 0int } else { 1int });
            assert(row < rows) by (nonlinear_arith)
                requires
                    i == cc * row + col,
                    0 <= col < cc,
                    ni == cc * q + r,
                    0 <= r < cc,
                    rows == q + if r == 0 { 0int } else { 1int },
                    i < ni,
                    cc >= 1,
            ;
            assert(rows >= 1) by (nonlinear_arith)
                requires
                    ni == cc * q + r,
                    0 <= r < cc,
                    rows == q + if r == 0 { 0int } else { 1int },
                    ni >= 1,
                    q >= 0,
            ;
        },
    }
}

/// Every glyph has an origin once the image size and both steps are known.
pub proof fn lemma_origin_ok(p: GlyphProfile, n: usize, lo: LayoutOptions, w: u32, h: u32, i: usize)
    requires
        lo.valid(),
        1 <= n <= u32_max(),
        image_size_spec(p, n, lo) == Ok::<(u32, u32), GlyphixError>((w, h)),
        i < n,
        step_x_spec(p, lo) is Ok,
        step_y_spec(p, lo) is Ok,
    ensures
        origin_spec(p, i, n, lo) is Ok,
{
    let gw = p.width * lo.cell_scale;
    let gh = p.height * lo.cell_scale;
    let sx = gw + lo.gap_x + lo.sep();
    let sy = gh + lo.gap_y + lo.sep();
    let cols = used_columns(lo, n) as int;
    let rows = lo.layout.rows_spec(n) as int;
    let c = cell_of(lo.layout, i);
    lemma_cell_bounds(lo, n, i);
    let cw = extent(gw as u32, cols as u32, lo.gap_x + lo.sep());
    let ch = extent(gh as u32, rows as u32, lo.gap_y + lo.sep());
    assert(c.0 * sx <= cw) by (nonlinear_arith)
        requires
            cw == gw * cols + (cols - 1) * (lo.gap_x + lo.sep()),
            sx == gw + lo.gap_x + lo.sep(),
            0 <= c.0 <= cols - 1,
            gw >= 0,
            lo.gap_x + lo.sep() >= 0,
    ;
    assert(c.1 * sy <= ch) by (nonlinear_arith)
        requires
            ch == gh * rows + (rows - 1) * (lo.gap_y + lo.sep()),
            sy == gh + lo.gap_y + lo.sep(),
            0 <= c.1 <= rows - 1,
            gh >= 0,
            lo.gap_y + lo.sep() >= 0,
    ;
}

/// Each glyph tile lies inside the image, and so does the step to the next glyph
/// of its row or column.
pub proof fn lemma_tile_in_image(p: GlyphProfile, n: usize, lo: LayoutOptions, w: u32, h: u32, i: usize, ox: u32, oy: u32)
    requires
        lo.valid(),
        1 <= n <= u32_max(),
        image_size_spec(p, n, lo) == Ok::<(u32, u32), GlyphixError>((w, h)),
        i < n,
        origin_spec(p, i, n, lo) == Ok::<(u32, u32), GlyphixError>((ox, oy)),
    ensures
        ox + p.width * lo.cell_scale <= w,
        oy + p.height * lo.cell_scale <= h,
        cell_of(lo.layout, i).1 < lo.layout.rows_spec(n),
        !last_in_row(lo.layout, i as int, n as int) ==> ox + (p.width * lo.cell_scale + lo.gap_x + lo.sep()) + p.width * lo.cell_scale <= w,
        cell_of(lo.layout, i).1 + 1 < lo.layout.rows_spec(n) ==> oy + (p.height * lo.cell_scale + lo.gap_y + lo.sep()) + p.height * lo.cell_scale <= h,
{
    let gw = p.width * lo.cell_scale;
    let gh = p.height * lo.cell_scale;
    let px = lo.gap_x + lo.sep();
    let py = lo.gap_y + lo.sep();
    let sx = gw + px;
    let sy = gh + py;
    let cols = used_columns(lo, n) as int;
    let rows = lo.layout.rows_spec(n) as int;
    let c = cell_of(lo.layout, i);
    let col = c.0 as int;
    let row = c.1 as int;
    lemma_cell_bounds(lo, n, i);
    let cw = extent(gw as u32, cols as u32, px);
    let ch = extent(gh as u32, rows as u32, py);
    assert(cw == (cols - 1) * sx + gw) by (nonlinear_arith)
        requires
            cw == gw * cols + (cols - 1) * px,
            sx == gw + px,
            cols >= 1,
    ;
    assert(ch == (rows - 1) * sy + gh) by (nonlinear_arith)
        requires
            ch == gh * rows + (rows - 1) * py,
            sy == gh + py,
            rows >= 1,
    ;
    assert(col * sx <= (cols - 1) * sx) by (nonlinear_arith)
        requires
            col <= cols - 1,
            sx >= 0,
    ;
    assert(row * sy <= (rows - 1) * sy) by (nonlinear_arith)
        requires
            row <= rows - 1,
            sy >= 0,
    ;
    if col + 1 < cols {
        assert((col + 1) * sx <= (cols - 1) * sx) by (nonlinear_arith)
            requires
                col + 1 <= cols - 1,
                sx >= 0,
        ;
        assert((col + 1) * sx == col * sx + sx) by (nonlinear_arith);
        assert(ox + sx + gw <= w);
    }
    if row + 1 < rows {
        assert((row + 1) * sy <= (rows - 1) * sy) by (nonlinear_arith)
            requires
                row + 1 <= rows - 1,
                sy >= 0,
        ;
        assert((row + 1) * sy == row * sy + sy) by (nonlinear_arith);
        assert(oy + sy + gh <= h);
    }
}


/// A glyph count read from an image fits `u32`.
pub proof fn lemma_infer_count_bound(p: GlyphProfile, w: u32, h: u32, o: LayoutOptions, n: usize)
    requires
        p.width >= 1,
        p.height >= 1,
        infer_spec(p, w, h, o) == Ok::<usize, GlyphixError>(n),
        grid_shape(p, w, h, o) matches Some((rows, cols)) ==> rows * cols <= u32_max(),
    ensures
        1 <= n <= u32_max(),
{
    let fr = infer_frame(p, w, h, o);
    assert(fr is Ok);
    let (iw, ih, gw, gh) = fr->Ok_0;
    assert(gw >= 1) by (nonlinear_arith)
        requires
            gw == p.width * o.cell_scale,
            p.width >= 1,
            o.cell_scale >= 1,
    ;
    assert(0 <= iw <= u32_max());
    match o.layout {
        GlyphLayout::HorizontalStrip => {
            let pitch = clamp_u32(o.gap_x + o.sep());
            let sx = gw + o.gap_x + o.sep();
            if pitch == 0 {
                assert(iw / gw <= iw) by {
                    vstd::arithmetic::div_mod::lemma_div_is_ordered_by_denominator(iw, 1, gw);
                }
            } else {
                assert((iw + pitch) / sx <= iw + pitch) by {
                    vstd::arithmetic::div_mod::lemma_div_is_ordered_by_denominator(iw + pitch, 1, sx);
                }
            }
        },
        GlyphLayout::Grid { columns } => {
            let rows = grid_rows_spec(ih, gh, clamp_u32(o.gap_y + o.sep()), gh + o.gap_y + o.sep())->Ok_0;
            assert(grid_shape(p, w, h, o) == Some((rows, columns)));
            assert(rows * columns >= 1) by (nonlinear_arith)
                requires
                    rows >= 1,
                    columns >= 1,
            ;
        },
    }
}

/// The rows and columns read from a grid image are at most its height and width.
pub proof fn lemma_grid_shape_bound(p: GlyphProfile, w: u32, h: u32, o: LayoutOptions)
    requires
        p.width >= 1,
        p.height >= 1,
        grid_shape(p, w, h, o) is Some,
    ensures
        grid_shape(p, w, h, o)->Some_0.0 <= h,
        grid_shape(p, w, h, o)->Some_0.1 <= w,
        grid_shape(p, w, h, o)->Some_0.0 * grid_shape(p, w, h, o)->Some_0.1 <= w * h,
{
    let fr = infer_frame(p, w, h, o);
    let (iw, ih, gw, gh) = fr->Ok_0;
    let columns = o.layout->columns;
    let rows = grid_shape(p, w, h, o)->Some_0.0;
    assert(gw >= 1 && gh >= 1) by (nonlinear_arith)
        requires
            gw == p.width * o.cell_scale,
            gh == p.height * o.cell_scale,
            p.width >= 1,
            p.height >= 1,
            o.cell_scale >= 1,
    ;
    let px = clamp_u32(o.gap_x + o.sep());
    assert(columns <= iw) by (nonlinear_arith)
        requires
            iw == gw * columns + less_one(columns) * px,
            gw >= 1,
            px >= 0,
            less_one(columns) >= 0,
    ;
    let py = clamp_u32(o.gap_y + o.sep());
    let sy = gh + o.gap_y + o.sep();
    assert(py == o.gap_y + o.sep());
    if py == 0 {
        vstd::arithmetic::div_mod::lemma_div_is_ordered_by_denominator(ih, 1, gh);
        assert(rows <= ih);
    } else {
        vstd::arithmetic::div_mod::lemma_fundamental_div_mod(ih + py, sy);
        assert(rows == (ih + py) / sy);
        assert(rows <= ih) by (nonlinear_arith)
            requires
                ih + py == sy * rows + (ih + py) % sy,
                (ih + py) % sy == 0,
                sy == gh + py,
                gh >= 1,
                py >= 0,
                rows >= 1,
                ih >= 0,
        ;
    }
    assert(rows * columns <= w * h) by (nonlinear_arith)
        requires
            rows <= h,
            columns <= w,
            rows >= 0,
            columns >= 0,
    ;
}

} // verus!
