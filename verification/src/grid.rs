//! Logical pixel grids and **place-value** coordinates.
//!
//! Storage uses top-left origin, row-major `cells[y * width + x]`.
//! Significance uses the place index
//! `place(x, y) = (H - 1 - y) * W + (W - 1 - x)`:
//! place 0 is the bottom-right cell; places increase left along a row, then up.
//! Place `p` is stored at index `W * H - 1 - p`.

use vstd::prelude::*;
use vstd::arithmetic::div_mod::{lemma_fundamental_div_mod, lemma_fundamental_div_mod_converse};
use crate::error::{message, GlyphixError, Result};
use crate::profile::GlyphProfile;

verus! {

broadcast use crate::error::lemma_message;

/// Mathematical content of a grid.
pub struct GridView {
    pub width: u32,
    pub height: u32,
    /// Row-major cells, top-left origin.
    pub cells: Seq<u32>,
}

impl GridView {
    /// Number of cells.
    pub open spec fn n(self) -> nat {
        (self.width * self.height) as nat
    }

    /// Positive dimensions and a cell for every coordinate.
    pub open spec fn wf(self) -> bool {
        &&& self.width >= 1
        &&& self.height >= 1
        &&& self.cells.len() == self.n()
    }

    /// The color at place `p` (place 0 = bottom-right).
    pub open spec fn place(self, p: int) -> u32 {
        self.cells[self.n() - 1 - p]
    }

    /// The color at `(x, y)`.
    pub open spec fn at(self, x: int, y: int) -> u32 {
        self.cells[y * self.width + x]
    }

    /// Every cell is below `palette`.
    pub open spec fn colors_below(self, palette: u32) -> bool {
        forall|i: int| 0 <= i < self.cells.len() ==> self.cells[i] < palette
    }

    /// All-zero grid of the given size.
    pub open spec fn zeros(width: u32, height: u32) -> GridView {
        GridView { width, height, cells: Seq::new((width * height) as nat, |i: int| 0u32) }
    }
}

/// Place index of `(x, y)`.
pub open spec fn place_of(w: int, h: int, x: int, y: int) -> int {
    (h - 1 - y) * w + (w - 1 - x)
}

/// Coordinates `(x, y)` of place `p`.
pub open spec fn coords_of(w: int, h: int, p: int) -> (int, int) {
    (w - 1 - p % w, h - 1 - p / w)
}

/// Places and coordinates are inverse bijections; place `p` is stored at `w*h-1-p`.
pub proof fn lemma_coords_of_place(w: int, h: int, p: int)
    requires
        w >= 1,
        h >= 1,
        0 <= p < w * h,
    ensures
        0 <= coords_of(w, h, p).0 < w,
        0 <= coords_of(w, h, p).1 < h,
        coords_of(w, h, p).1 * w + coords_of(w, h, p).0 == w * h - 1 - p,
        place_of(w, h, coords_of(w, h, p).0, coords_of(w, h, p).1) == p,
{
    lemma_fundamental_div_mod(p, w);
    let q = p / w;
    let r = p % w;
    assert(q >= 0) by (nonlinear_arith)
        requires
            p >= 0,
            w >= 1,
            q == p / w,
    ;
    assert(q < h) by (nonlinear_arith)
        requires
            p == w * q + r,
            0 <= r,
            p < w * h,
            w >= 1,
    ;
    assert((h - 1 - q) * w + (w - 1 - r) == w * h - 1 - p) by (nonlinear_arith)
        requires
            p == w * q + r,
    ;
    assert((h - 1 - (h - 1 - q)) * w + (w - 1 - (w - 1 - r)) == p) by (nonlinear_arith)
        requires
            p == w * q + r,
    ;
}

/// Coordinates of the place of `(x, y)` are `(x, y)`.
pub proof fn lemma_place_of_coords(w: int, h: int, x: int, y: int)
    requires
        0 <= x < w,
        0 <= y < h,
    ensures
        0 <= place_of(w, h, x, y) < w * h,
        coords_of(w, h, place_of(w, h, x, y)) == (x, y),
        y * w + x == w * h - 1 - place_of(w, h, x, y),
{
    let q = h - 1 - y;
    let r = w - 1 - x;
    let p = place_of(w, h, x, y);
    assert(p == q * w + r);
    assert(0 <= p < w * h) by (nonlinear_arith)
        requires
            p == q * w + r,
            0 <= q < h,
            0 <= r < w,
    ;
    lemma_fundamental_div_mod_converse(p, w, q, r);
    assert(y * w + x == w * h - 1 - p) by (nonlinear_arith)
        requires
            p == q * w + r,
            q == h - 1 - y,
            r == w - 1 - x,
    ;
}

/// Row-major index bound.
pub proof fn lemma_index_bound(w: int, h: int, x: int, y: int)
    requires
        0 <= x < w,
        0 <= y < h,
    ensures
        0 <= y * w + x < w * h,
{
    assert(0 <= y * w + x < w * h) by (nonlinear_arith)
        requires
            0 <= x < w,
            0 <= y < h,
    ;
}

/// One glyph: a \(W \times H\) array of color indices.
#[derive(Debug, Clone, PartialEq, Eq, Hash)]
pub struct Grid {
    width: u32,
    height: u32,
    /// Row-major, top-left origin. Length = width * height.
    cells: Vec<u32>,
}

impl View for Grid {
    type V = GridView;

    closed spec fn view(&self) -> GridView {
        GridView { width: self.width, height: self.height, cells: self.cells@ }
    }
}

/// First cell (in storage order) at or above `palette`, reported as an error.
pub open spec fn palette_check(cells: Seq<u32>, palette: u32) -> Result<()>
    decreases cells.len(),
{
    if cells.len() == 0 {
        Ok(())
    } else if cells[0] >= palette {
        Err(GlyphixError::ColorOutOfRange { index: cells[0], palette_size: palette })
    } else {
        palette_check(cells.drop_first(), palette)
    }
}

/// Result of checking a grid against a profile.
pub open spec fn profile_check(g: GridView, p: GlyphProfile) -> Result<()> {
    if g.width != p.width || g.height != p.height {
        Err(GlyphixError::GridSizeMismatch {
            got_w: g.width,
            got_h: g.height,
            want_w: p.width,
            want_h: p.height,
        })
    } else {
        palette_check(g.cells, p.palette_size)
    }
}

pub proof fn lemma_palette_check_ok(cells: Seq<u32>, palette: u32)
    ensures
        palette_check(cells, palette) is Ok <==> forall|i: int| 0 <= i < cells.len() ==> cells[i] < palette,
    decreases cells.len(),
{
    if cells.len() > 0 {
        lemma_palette_check_ok(cells.drop_first(), palette);
        if palette_check(cells, palette) is Ok {
            assert forall|i: int| 0 <= i < cells.len() implies cells[i] < palette by {
                if i > 0 {
                    assert(cells[i] == cells.drop_first()[i - 1]);
                }
            }
        }
        if forall|i: int| 0 <= i < cells.len() ==> cells[i] < palette {
            assert forall|i: int| 0 <= i < cells.drop_first().len() implies cells.drop_first()[i] < palette by {
                assert(cells.drop_first()[i] == cells[i + 1]);
            }
        }
    }
}

/// Views of a slice of grids.
pub open spec fn views(gs: Seq<Grid>) -> Seq<GridView> {
    gs.map_values(|g: Grid| g@)
}

/// Computed glyphs agree with specified ones.
pub open spec fn glyphs_agree(r: Result<Vec<Grid>>, s: Result<Seq<GridView>>) -> bool {
    match (r, s) {
        (Ok(a), Ok(b)) => views(a@) == b,
        (Err(e1), Err(e2)) => e1.agrees(e2),
        _ => false,
    }
}

impl Grid {
    /// Build a grid from raw parts.
    pub(crate) fn from_parts(width: u32, height: u32, cells: Vec<u32>) -> (g: Grid)
        ensures
            g@ == (GridView { width, height, cells: cells@ }),
    {
        Grid { width, height, cells }
    }

    /// A zero-filled cell vector.
    fn zero_cells(n: usize) -> (v: Vec<u32>)
        ensures
            v@ == Seq::new(n as nat, |i: int| 0u32),
    {
        let mut v: Vec<u32> = Vec::with_capacity(n);
        let mut i: usize = 0;
        while i < n
            invariant
                i <= n,
                v@ == Seq::new(i as nat, |j: int| 0u32),
            decreases n - i,
        {
            v.push(0);
            i = i + 1;
            assert(v@ =~= Seq::new(i as nat, |j: int| 0u32));
        }
        v
    }

    /// Create a grid filled with zeros (all black / value 0).
    pub fn zeros(width: u32, height: u32) -> (r: Result<Self>)
        ensures
            r is Ok <==> width >= 1 && height >= 1 && width * height <= usize::MAX,
            r matches Ok(g) ==> g@ == GridView::zeros(width, height) && g@.wf(),
            r matches Err(e) ==> e.agrees(GlyphixError::InvalidProfile(message(
                if width == 0 || height == 0 { "width and height must be ≥ 1"@ } else { "grid too large"@ },
            ))),
    {
        if width == 0 || height == 0 {
            return Err(GlyphixError::InvalidProfile("width and height must be ≥ 1".to_string()));
        }
        match (width as usize).checked_mul(height as usize) {
            None => Err(GlyphixError::InvalidProfile("grid too large".to_string())),
            Some(n) => {
                let cells = Self::zero_cells(n);
                Ok(Grid { width, height, cells })
            },
        }
    }

    /// Create a grid matching a profile, all zeros.
    pub fn from_profile(profile: &GlyphProfile) -> (g: Self)
        requires
            profile.wf(),
        ensures
            g@ == GridView::zeros(profile.width, profile.height),
            g@.wf(),
    {
        match Self::zeros(profile.width, profile.height) {
            Ok(g) => g,
            Err(_) => {
                assert(false);
                Grid { width: profile.width, height: profile.height, cells: Vec::new() }
            },
        }
    }

    /// Width in cells.
    pub fn width(&self) -> (w: u32)
        ensures
            w == self@.width,
    {
        self.width
    }

    /// Height in cells.
    pub fn height(&self) -> (h: u32)
        ensures
            h == self@.height,
    {
        self.height
    }

    /// Borrow raw row-major cells (top-left origin).
    pub fn cells(&self) -> (c: &[u32])
        ensures
            c@ == self@.cells,
    {
        self.cells.as_slice()
    }

    /// Mutable raw cells.
    pub fn cells_mut(&mut self) -> (c: &mut [u32])
        ensures
            c@ == old(self)@.cells,
            final(self)@ == (GridView { width: old(self)@.width, height: old(self)@.height, cells: final(c)@ }),
    {
        self.cells.as_mut_slice()
    }

    /// Place index for \((x, y)\). Place 0 = bottom-right.
    pub fn place_index(width: u32, height: u32, x: u32, y: u32) -> (r: Result<usize>)
        requires
            width * height <= usize::MAX,
        ensures
            r is Ok <==> x < width && y < height,
            r matches Ok(p) ==> p == place_of(width as int, height as int, x as int, y as int),
            r matches Err(e) ==> e == (GlyphixError::OutOfBounds { x, y, width, height }),
    {
        if x >= width || y >= height {
            return Err(GlyphixError::OutOfBounds { x, y, width, height });
        }
        proof {
            lemma_place_of_coords(width as int, height as int, x as int, y as int);
            assert((height - 1 - y) * width <= width * height) by (nonlinear_arith)
                requires
                    y < height,
            ;
        }
        let place = (height - 1 - y) as usize * width as usize + (width - 1 - x) as usize;
        Ok(place)
    }

    /// \((x, y)\) for a place index (inverse of [`Grid::place_index`]).
    pub fn coords_for_place(width: u32, height: u32, place: usize) -> (r: Result<(u32, u32)>)
        requires
            width * height <= usize::MAX,
        ensures
            r is Ok <==> place < width * height,
            r matches Ok(c) ==> c.0 < width && c.1 < height
                && (c.0 as int, c.1 as int) == coords_of(width as int, height as int, place as int),
            r matches Err(e) ==> e == (GlyphixError::OutOfBounds { x: place as u32, y: 0, width, height }),
    {
        let n = width as usize * height as usize;
        if place >= n {
            return Err(GlyphixError::OutOfBounds { x: place as u32, y: 0, width, height });
        }
        proof {
            assert(width >= 1 && height >= 1) by (nonlinear_arith)
                requires
                    place < width * height,
            ;
            lemma_coords_of_place(width as int, height as int, place as int);
        }
        let row_from_bottom = place / width as usize;
        let col_from_right = place % width as usize;
        let y = height - 1 - row_from_bottom as u32;
        let x = width - 1 - col_from_right as u32;
        Ok((x, y))
    }

    /// Color index at \((x, y)\).
    pub fn get(&self, x: u32, y: u32) -> (r: Result<u32>)
        requires
            self@.wf(),
        ensures
            r is Ok <==> x < self@.width && y < self@.height,
            r matches Ok(c) ==> c == self@.at(x as int, y as int),
            r matches Err(e) ==> e == (GlyphixError::OutOfBounds { x, y, width: self@.width, height: self@.height }),
    {
        if x >= self.width || y >= self.height {
            return Err(GlyphixError::OutOfBounds { x, y, width: self.width, height: self.height });
        }
        let len = self.cells.len();
        proof {
            assert(self.cells@.len() == self.width * self.height);
            assert(len == self.cells@.len());
            lemma_index_bound(self.width as int, self.height as int, x as int, y as int);
        }
        Ok(self.cells[y as usize * self.width as usize + x as usize])
    }

    /// Set color index at \((x, y)\) (does not check palette bounds).
    pub fn set(&mut self, x: u32, y: u32, color: u32) -> (r: Result<()>)
        requires
            old(self)@.wf(),
        ensures
            r is Ok <==> x < old(self)@.width && y < old(self)@.height,
            r is Ok ==> final(self)@ == (GridView {
                cells: old(self)@.cells.update(y * old(self)@.width + x, color),
                ..old(self)@
            }),
            r is Err ==> final(self)@ == old(self)@,
            r matches Err(e) ==> e == (GlyphixError::OutOfBounds { x, y, width: old(self)@.width, height: old(self)@.height }),
            final(self)@.wf(),
    {
        if x >= self.width || y >= self.height {
            return Err(GlyphixError::OutOfBounds { x, y, width: self.width, height: self.height });
        }
        let len = self.cells.len();
        proof {
            assert(self.cells@.len() == self.width * self.height);
            assert(len == self.cells@.len());
            lemma_index_bound(self.width as int, self.height as int, x as int, y as int);
        }
        let i = y as usize * self.width as usize + x as usize;
        self.cells.set(i, color);
        Ok(())
    }

    /// Color at place index \(p\).
    pub fn get_place(&self, place: usize) -> (r: Result<u32>)
        requires
            self@.wf(),
        ensures
            r is Ok <==> place < self@.n(),
            r matches Ok(c) ==> c == self@.place(place as int),
            r matches Err(e) ==> e == (GlyphixError::OutOfBounds { x: place as u32, y: 0, width: self@.width, height: self@.height }),
    {
        let len = self.cells.len();
        proof {
            assert(self.cells@.len() == self.width * self.height);
            assert(len == self.cells@.len());
        }
        let (x, y) = Self::coords_for_place(self.width, self.height, place)?;
        proof {
            lemma_coords_of_place(self.width as int, self.height as int, place as int);
        }
        self.get(x, y)
    }

    /// Set color at place index \(p\).
    pub fn set_place(&mut self, place: usize, color: u32) -> (r: Result<()>)
        requires
            old(self)@.wf(),
        ensures
            r is Ok <==> place < old(self)@.n(),
            r is Ok ==> final(self)@ == (GridView {
                cells: old(self)@.cells.update(old(self)@.n() - 1 - place, color),
                ..old(self)@
            }),
            r is Err ==> final(self)@ == old(self)@,
            r matches Err(e) ==> e == (GlyphixError::OutOfBounds { x: place as u32, y: 0, width: old(self)@.width, height: old(self)@.height }),
            final(self)@.wf(),
    {
        let len = self.cells.len();
        proof {
            assert(self.cells@.len() == self.width * self.height);
            assert(len == self.cells@.len());
        }
        let (x, y) = Self::coords_for_place(self.width, self.height, place)?;
        proof {
            lemma_coords_of_place(self.width as int, self.height as int, place as int);
        }
        self.set(x, y, color)
    }

    /// Ensure every cell is in \(0..palette\_size\).
    pub fn validate_palette(&self, palette_size: u32) -> (r: Result<()>)
        ensures
            r == palette_check(self@.cells, palette_size),
    {
        let mut i: usize = 0;
        assert(self.cells@.skip(0) =~= self.cells@);
        while i < self.cells.len()
            invariant
                i <= self.cells@.len(),
                palette_check(self.cells@, palette_size) == palette_check(self.cells@.skip(i as int), palette_size),
            decreases self.cells@.len() - i,
        {
            let c = self.cells[i];
            assert(self.cells@.skip(i as int)[0] == c);
            if c >= palette_size {
                return Err(GlyphixError::ColorOutOfRange { index: c, palette_size });
            }
            assert(self.cells@.skip(i as int).drop_first() =~= self.cells@.skip(i + 1));
            i = i + 1;
        }
        Ok(())
    }

    /// Ensure dimensions match profile and every color fits its palette.
    pub fn validate_profile(&self, profile: &GlyphProfile) -> (r: Result<()>)
        ensures
            r == profile_check(self@, *profile),
    {
        if self.width != profile.width || self.height != profile.height {
            return Err(GlyphixError::GridSizeMismatch {
                got_w: self.width,
                got_h: self.height,
                want_w: profile.width,
                want_h: profile.height,
            });
        }
        self.validate_palette(profile.palette_size)
    }

    /// True if every cell is zero (value 0 / all black).
    pub fn is_all_zero(&self) -> (b: bool)
        ensures
            b == forall|i: int| 0 <= i < self@.cells.len() ==> self@.cells[i] == 0,
    {
        let mut i: usize = 0;
        while i < self.cells.len()
            invariant
                i <= self.cells@.len(),
                forall|j: int| 0 <= j < i ==> self.cells@[j] == 0,
            decreases self.cells@.len() - i,
        {
            if self.cells[i] != 0 {
                assert(self@.cells[i as int] != 0);
                return false;
            }
            i = i + 1;
        }
        true
    }

    /// An equal copy of this grid.
    pub(crate) fn duplicate(&self) -> (g: Grid)
        ensures
            g@ == self@,
    {
        let mut cells: Vec<u32> = Vec::with_capacity(self.cells.len());
        let mut i: usize = 0;
        while i < self.cells.len()
            invariant
                i <= self.cells@.len(),
                cells@ == self.cells@.take(i as int),
            decreases self.cells@.len() - i,
        {
            cells.push(self.cells[i]);
            i = i + 1;
            assert(cells@ =~= self.cells@.take(i as int));
        }
        assert(cells@ =~= self.cells@);
        Grid { width: self.width, height: self.height, cells }
    }
}

/// After cell `(x, y)` is set to `color`, it reads back as `color` and every
/// other cell reads as before.
pub proof fn lemma_set_then_get(g: GridView, x: int, y: int, color: u32, x2: int, y2: int)
    requires
        g.wf(),
        0 <= x < g.width,
        0 <= y < g.height,
        0 <= x2 < g.width,
        0 <= y2 < g.height,
    ensures
        ({
            let h = GridView { cells: g.cells.update(y * g.width + x, color), ..g };
            &&& h.wf()
            &&& h.at(x, y) == color
            &&& (x2 != x || y2 != y) ==> h.at(x2, y2) == g.at(x2, y2)
        }),
{
    let w = g.width as int;
    lemma_index_bound(w, g.height as int, x, y);
    lemma_index_bound(w, g.height as int, x2, y2);
    if y * w + x == y2 * w + x2 {
        vstd::arithmetic::div_mod::lemma_fundamental_div_mod_converse(y * w + x, w, y, x);
        vstd::arithmetic::div_mod::lemma_fundamental_div_mod_converse(y2 * w + x2, w, y2, x2);
    }
}

} // verus!
