//! Paletted map images: the fixed palette of map colors, the palette index of
//! each named color, and images whose pixels are palette indices.

use vstd::prelude::*;
use crate::raster::{
    GrayRaster, gray_pixels, gray_dims, cell, gray_from_pixel, gray_dimensions, gray_get, gray_put,
    gray_raw, gray_median_filter, median_filtered, gray_fill_rect,
};

verus! {

/// The named colors of the palette.
#[derive(Debug, Clone, Copy, PartialEq, Eq, Structural)]
pub enum PaletteColorEnum {
    /// Transparent background color.
    Transparent,
    BackgroundWhite,
    Black,
    /// Yellow used for open areas.
    Yellow2,
    Undergrowth,
    Blue,
    /// A shade of green used for vegetation. Number of shades are configured by the config. Maximum
    /// 16 shades, so we have to reserve 16 colors for this.
    GreenShade(u8),
}

/// The index of a color in the palette. The palette contains up to 256 colors, so this is a single byte.
#[derive(Debug, Clone, Copy, PartialEq, Eq, Structural)]
pub struct PaletteColor(pub u8);

/// The palette index of a named color.
pub open spec fn color_index(c: PaletteColorEnum) -> u8 {
    match c {
        PaletteColorEnum::Transparent => 0,
        PaletteColorEnum::BackgroundWhite => 1,
        PaletteColorEnum::Black => 2,
        PaletteColorEnum::Yellow2 => 3,
        PaletteColorEnum::Blue => 4,
        PaletteColorEnum::Undergrowth => 5,
        PaletteColorEnum::GreenShade(shade) => (16 + shade) as u8,
    }
}

/// Whether a named color is valid: green shades run from 0 to 15.
pub open spec fn valid_color(c: PaletteColorEnum) -> bool {
    c matches PaletteColorEnum::GreenShade(shade) ==> shade < 16
}

impl PaletteColorEnum {
    /// The palette index of this color. A green shade must be below 16.
    pub fn to_color(&self) -> (r: PaletteColor)
        requires
            valid_color(*self),
        ensures
            r.0 == color_index(*self),
    {
        match self {
            PaletteColorEnum::Transparent => PaletteColor(0),
            PaletteColorEnum::BackgroundWhite => PaletteColor(1),
            PaletteColorEnum::Black => PaletteColor(2),
            PaletteColorEnum::Yellow2 => PaletteColor(3),
            PaletteColorEnum::Blue => PaletteColor(4),
            PaletteColorEnum::Undergrowth => PaletteColor(5),
            PaletteColorEnum::GreenShade(shade) => PaletteColor(16 + *shade),
        }
    }
}

/// Every named color has a palette entry of its own: distinct valid colors
/// have distinct indices.
pub proof fn lemma_color_indices_distinct(a: PaletteColorEnum, b: PaletteColorEnum)
    requires
        valid_color(a),
        valid_color(b),
        a != b,
    ensures
        color_index(a) != color_index(b),
{
}

/// Whether a color is never painted: transparent or background white.
pub open spec fn is_see_through(c: u8) -> bool {
    c == 0 || c == 1
}

/// The color of a pixel after `top` is painted over `bottom`: `bottom` stays
/// when `top` is transparent or background white.
pub open spec fn blended(bottom: u8, top: u8) -> u8 {
    if is_see_through(top) {
        bottom
    } else {
        top
    }
}

/// The color of a pixel after an image whose pixel there is `top` is laid
/// over it: the top color, unless it is transparent.
pub open spec fn overlaid(bottom: u8, top: u8) -> u8 {
    if top == 0 {
        bottom
    } else {
        top
    }
}

/// Painting a color other than transparent (index 0) and background white
/// (index 1) gives that color; painting one of those two keeps what was there.
/// Laying an image over another gives the top color unless it is transparent.
pub proof fn lemma_painting(bottom: u8, top: u8)
    ensures
        top != 0 && top != 1 ==> blended(bottom, top) == top,
        top == 0 || top == 1 ==> blended(bottom, top) == bottom,
        top != 0 ==> overlaid(bottom, top) == top,
        top == 0 ==> overlaid(bottom, top) == bottom,
{
}

impl PaletteColor {
    /// Paints `other` over this color: nothing changes when `other` is
    /// transparent or background white, otherwise this color becomes `other`.
    pub fn blend(&mut self, other: &Self)
        ensures
            final(self).0 == blended(old(self).0, other.0),
            other.0 >= 2 ==> final(self).0 == other.0,
            other.0 < 2 ==> final(self).0 == old(self).0,
    {
        let transparent = PaletteColorEnum::Transparent.to_color();
        let white = PaletteColorEnum::BackgroundWhite.to_color();
        if other.0 == transparent.0 || other.0 == white.0 {
            return;
        }
        *self = *other;
    }
}

/// A color of the palette: red, green, blue, alpha.
pub type Rgba8 = [u8; 4];

/// The palette entry at `i` of a palette made with the given green shades.
pub open spec fn palette_entry(green_shades: Seq<Rgba8>, i: int) -> Rgba8 {
    if i == 0 {
        [255u8, 255u8, 255u8, 0u8]
    } else if i == 1 {
        [255u8, 255u8, 255u8, 255u8]
    } else if i == 2 {
        [0u8, 0u8, 0u8, 255u8]
    } else if i == 3 {
        [255u8, 219u8, 166u8, 255u8]
    } else if i == 4 {
        [29u8, 190u8, 255u8, 255u8]
    } else if i == 5 {
        [64u8, 121u8, 0u8, 255u8]
    } else if 16 <= i < 16 + green_shades.len() {
        green_shades[i - 16]
    } else {
        [0u8, 0u8, 0u8, 0u8]
    }
}

/// Contains the global color palette for rendering.
pub struct Palette {
    colors: Vec<Rgba8>,
}

impl Palette {
    /// The 256 colors, by index.
    pub closed spec fn colors(&self) -> Seq<Rgba8> {
        self.colors@
    }

    /// The palette holds 256 colors.
    pub closed spec fn wf(&self) -> bool {
        self.colors@.len() == 256
    }

    /// The palette of the map: the fixed colors and the given shades of green
    /// (computed from the configuration), every other entry transparent black.
    pub fn new(green_shades: &Vec<Rgba8>) -> (r: Self)
        requires
            green_shades@.len() <= 16,
        ensures
            r.wf(),
            forall|i: int| 0 <= i < 256 ==> #[trigger] r.colors()[i] == palette_entry(green_shades@, i),
    {
        let mut colors: Vec<Rgba8> = Vec::new();
        let mut k: usize = 0;
        while k < 256
            invariant
                k <= 256,
                colors@.len() == k,
                forall|i: int| 0 <= i < k ==> #[trigger] colors@[i] == [0u8, 0u8, 0u8, 0u8],
            decreases 256 - k,
        {
            colors.push([0u8, 0u8, 0u8, 0u8]);
            k = k + 1;
        }
        let mut palette = Palette { colors };
        palette.set(PaletteColorEnum::Transparent, [255u8, 255u8, 255u8, 0u8]);
        palette.set(PaletteColorEnum::Yellow2, [255u8, 219u8, 166u8, 255u8]);
        let n = green_shades.len();
        let mut i: usize = 0;
        while i < n
            invariant
                n == green_shades@.len(),
                n <= 16,
                i <= n,
                palette.wf(),
                forall|j: int| 0 <= j < 256 ==> #[trigger] palette.colors()[j] == if j == 0 {
                    [255u8, 255u8, 255u8, 0u8]
                } else if j == 3 {
                    [255u8, 219u8, 166u8, 255u8]
                } else if 16 <= j < 16 + i {
                    green_shades@[j - 16]
                } else {
                    [0u8, 0u8, 0u8, 0u8]
                },
            decreases n - i,
        {
            palette.set(PaletteColorEnum::GreenShade(i as u8), green_shades[i]);
            i = i + 1;
        }
        palette.set(PaletteColorEnum::BackgroundWhite, [255u8, 255u8, 255u8, 255u8]);
        palette.set(PaletteColorEnum::Black, [0u8, 0u8, 0u8, 255u8]);
        palette.set(PaletteColorEnum::Blue, [29u8, 190u8, 255u8, 255u8]);
        palette.set(PaletteColorEnum::Undergrowth, [64u8, 121u8, 0u8, 255u8]);
        palette
    }

    /// The color of a named palette entry.
    pub fn get(&self, c: PaletteColorEnum) -> (r: Rgba8)
        requires
            self.wf(),
            valid_color(c),
        ensures
            r == self.colors()[color_index(c) as int],
    {
        let idx = c.to_color();
        self.colors[idx.0 as usize]
    }

    /// Sets the color of a named palette entry.
    pub fn set(&mut self, c: PaletteColorEnum, color: Rgba8)
        requires
            old(self).wf(),
            valid_color(c),
        ensures
            final(self).wf(),
            final(self).colors() == old(self).colors().update(color_index(c) as int, color),
    {
        let idx = c.to_color();
        self.colors.set(idx.0 as usize, color);
    }

    /// The `PLTE` and `tRNS` tables of an indexed PNG: red, green and blue of
    /// each entry in order, and the alpha of each entry.
    pub fn png_tables(&self) -> (r: (Vec<u8>, Vec<u8>))
        requires
            self.wf(),
        ensures
            r.0@.len() == 768,
            r.1@.len() == 256,
            forall|i: int, j: int| 0 <= i < 256 && 0 <= j < 3 ==> #[trigger] r.0@[3 * i + j] == self.colors()[i][j],
            forall|i: int| 0 <= i < 256 ==> #[trigger] r.1@[i] == self.colors()[i][3],
    {
        let mut plte: Vec<u8> = Vec::new();
        let mut trns: Vec<u8> = Vec::new();
        let mut i: usize = 0;
        while i < 256
            invariant
                self.wf(),
                i <= 256,
                plte@.len() == 3 * i,
                trns@.len() == i,
                forall|a: int, j: int| 0 <= a < i && 0 <= j < 3 ==> #[trigger] plte@[3 * a + j] == self.colors()[a][j],
                forall|a: int| 0 <= a < i ==> #[trigger] trns@[a] == self.colors()[a][3],
            decreases 256 - i,
        {
            let c = self.colors[i];
            plte.push(c[0]);
            plte.push(c[1]);
            plte.push(c[2]);
            trns.push(c[3]);
            i = i + 1;
        }
        (plte, trns)
    }
}

proof fn lemma_cell_in_bounds(x: int, y: int, w: int, h: int)
    by (nonlinear_arith)
    requires
        0 <= x < w,
        0 <= y < h,
    ensures
        0 <= cell(x, y, w) < w * h,
{
}

proof fn lemma_cell_injective(x1: int, y1: int, x2: int, y2: int, w: int)
    by (nonlinear_arith)
    requires
        0 <= x1 < w,
        0 <= x2 < w,
        0 <= y1,
        0 <= y2,
        cell(x1, y1, w) == cell(x2, y2, w),
    ensures
        x1 == x2,
        y1 == y2,
{
}

/// Whether `(px, py)` of the bottom image lies under the top image placed at `(x, y)`.
pub open spec fn under_top(px: int, py: int, tw: int, th: int, x: int, y: int) -> bool {
    0 <= px - x < tw && 0 <= py - y < th
}

/// An image whose pixels are palette indices.
pub struct PalettedImage {
    image: GrayRaster,
}

impl PalettedImage {
    /// The width in pixels.
    pub closed spec fn spec_width(&self) -> u32 {
        gray_dims(self.image).0
    }

    /// The height in pixels.
    pub closed spec fn spec_height(&self) -> u32 {
        gray_dims(self.image).1
    }

    /// The palette indices of the pixels, row by row.
    pub closed spec fn indices(&self) -> Seq<u8> {
        gray_pixels(self.image)
    }

    /// The palette index of pixel `(x, y)`.
    pub open spec fn at(&self, x: int, y: int) -> u8 {
        self.indices()[cell(x, y, self.spec_width() as int)]
    }

    /// One index per pixel.
    pub open spec fn wf(&self) -> bool {
        self.indices().len() == self.spec_width() * self.spec_height()
    }

    /// An image of the given size filled with `fill`.
    pub fn new(width: u32, height: u32, fill: PaletteColor) -> (r: Self)
        requires
            width * height <= usize::MAX,
            width * height <= isize::MAX,
        ensures
            r.wf(),
            r.spec_width() == width,
            r.spec_height() == height,
            forall|i: int| 0 <= i < r.indices().len() ==> #[trigger] r.indices()[i] == fill.0,
    {
        PalettedImage { image: gray_from_pixel(width, height, fill.0) }
    }

    /// The width in pixels.
    pub fn width(&self) -> (r: u32)
        ensures
            r == self.spec_width(),
    {
        gray_dimensions(&self.image).0
    }

    /// The height in pixels.
    pub fn height(&self) -> (r: u32)
        ensures
            r == self.spec_height(),
    {
        gray_dimensions(&self.image).1
    }

    /// Width and height in pixels.
    pub fn dimensions(&self) -> (r: (u32, u32))
        ensures
            r == (self.spec_width(), self.spec_height()),
    {
        gray_dimensions(&self.image)
    }

    /// The color of pixel `(x, y)`.
    pub fn get_pixel(&self, x: u32, y: u32) -> (r: PaletteColor)
        requires
            x < self.spec_width(),
            y < self.spec_height(),
        ensures
            r.0 == self.at(x as int, y as int),
    {
        PaletteColor(gray_get(&self.image, x, y))
    }

    /// Draws pixel `(x, y)` in `color`, unless the color is transparent or
    /// background white, which are never drawn.
    pub fn draw_pixel(&mut self, x: u32, y: u32, color: PaletteColor)
        requires
            x < old(self).spec_width(),
            y < old(self).spec_height(),
        ensures
            final(self).spec_width() == old(self).spec_width(),
            final(self).spec_height() == old(self).spec_height(),
            final(self).indices() == if is_see_through(color.0) {
                old(self).indices()
            } else {
                old(self).indices().update(cell(x as int, y as int, old(self).spec_width() as int), color.0)
            },
            color.0 != 0 && color.0 != 1 ==> final(self).indices() == old(self).indices().update(
                cell(x as int, y as int, old(self).spec_width() as int),
                color.0,
            ),
            color.0 == 0 || color.0 == 1 ==> final(self).indices() == old(self).indices(),
    {
        let transparent = PaletteColorEnum::Transparent.to_color();
        let white = PaletteColorEnum::BackgroundWhite.to_color();
        if color.0 == transparent.0 || color.0 == white.0 {
            return;
        }
        gray_put(&mut self.image, x, y, color.0);
    }

    /// The image after a median filter with the given radii.
    pub fn median_filter(&self, x_radius: u32, y_radius: u32) -> (r: Self)
        requires
            self.wf(),
            self.spec_width() == 0 || self.spec_height() == 0 || (self.spec_width() + x_radius <= i32::MAX
                && self.spec_height() + y_radius <= i32::MAX && (2 * x_radius + 1) * (2 * y_radius + 1)
                <= u32::MAX),
        ensures
            r.wf(),
            r.spec_width() == self.spec_width(),
            r.spec_height() == self.spec_height(),
            self.spec_width() == 0 || self.spec_height() == 0 ==> r.indices() == self.indices(),
            self.spec_width() != 0 && self.spec_height() != 0 ==> r.indices() == median_filtered(
                self.indices(),
                self.spec_width(),
                self.spec_height(),
                x_radius,
                y_radius,
            ),
    {
        PalettedImage { image: gray_median_filter(&self.image, x_radius, y_radius) }
    }

    /// Fills the rectangle of the given position and size (clipped to the image)
    /// with `color`, without exception for transparent colors.
    pub fn draw_filled_rect(&mut self, left: i32, top: i32, width: u32, height: u32, color: PaletteColor)
        requires
            old(self).wf(),
            width > 0,
            height > 0,
            old(self).spec_width() > 0,
            old(self).spec_height() > 0,
            old(self).spec_width() <= i32::MAX,
            old(self).spec_height() <= i32::MAX,
            width <= i32::MAX,
            height <= i32::MAX,
            left + width <= i32::MAX,
            top + height <= i32::MAX,
        ensures
            final(self).wf(),
            final(self).spec_width() == old(self).spec_width(),
            final(self).spec_height() == old(self).spec_height(),
            forall|x: int, y: int|
                0 <= x < old(self).spec_width() && 0 <= y < old(self).spec_height() ==> #[trigger] final(self).at(x, y) == if left <= x < left + width && top <= y < top + height {
                    color.0
                } else {
                    old(self).at(x, y)
                },
    {
        gray_fill_rect(&mut self.image, left, top, width, height, color.0);
    }

    /// The colors of the pixels, row by row.
    pub fn pixels(&self) -> (r: Vec<PaletteColor>)
        ensures
            r@.len() == self.indices().len(),
            forall|i: int| 0 <= i < r@.len() ==> #[trigger] r@[i].0 == self.indices()[i],
    {
        let raw = gray_raw(&self.image);
        let mut out: Vec<PaletteColor> = Vec::new();
        let mut i: usize = 0;
        while i < raw.len()
            invariant
                raw@ == self.indices(),
                i <= raw@.len(),
                out@.len() == i,
                forall|j: int| 0 <= j < i ==> #[trigger] out@[j].0 == raw@[j],
            decreases raw@.len() - i,
        {
            out.push(PaletteColor(raw[i]));
            i = i + 1;
        }
        out
    }

    /// Overlays `top` on this image with its top-left corner at `(x, y)`: every
    /// pixel under `top` takes the color of the top pixel over it, unless that
    /// is transparent; the other pixels are kept. Unlike `PaletteColor::blend`
    /// and `draw_pixel`, which also leave the pixel below a background-white
    /// color unchanged, a background-white top pixel is laid over like any
    /// other color.
    pub fn overlay(&mut self, top: &Self, x: i64, y: i64)
        requires
            old(self).wf(),
            top.wf(),
        ensures
            final(self).wf(),
            final(self).spec_width() == old(self).spec_width(),
            final(self).spec_height() == old(self).spec_height(),
            forall|px: int, py: int|
                0 <= px < old(self).spec_width() && 0 <= py < old(self).spec_height() ==> #[trigger] final(self).at(px, py) == if under_top(px, py, top.spec_width() as int, top.spec_height() as int, x as int, y as int) {
                    overlaid(old(self).at(px, py), top.at(px - x, py - y))
                } else {
                    old(self).at(px, py)
                },
    {
        let (bw, bh) = self.dimensions();
        let (tw, th) = top.dimensions();
        let ghost orig = self.indices();
        let ghost w = bw as int;
        if x > bw as i64 || y > bh as i64 {
            assert forall|px: int, py: int| 0 <= px < bw && 0 <= py < bh implies !under_top(
                px,
                py,
                tw as int,
                th as int,
                x as int,
                y as int,
            ) by {}
            return;
        }
        let x_end: i64 = x + tw as i64;
        let y_end: i64 = y + th as i64;
        let x0: i64 = if x < 0 { 0 } else { x };
        let y0: i64 = if y < 0 { 0 } else { y };
        let x1: i64 = if x_end > bw as i64 { bw as i64 } else if x_end < 0 { 0 } else { x_end };
        let y1: i64 = if y_end > bh as i64 { bh as i64 } else if y_end < 0 { 0 } else { y_end };
        let mut py: i64 = y0;
        while py < y1
            invariant
                self.wf(),
                self.spec_width() == bw,
                self.spec_height() == bh,
                top.wf(),
                top.spec_width() == tw,
                top.spec_height() == th,
                w == bw,
                orig.len() == bw * bh,
                0 <= y0 <= py,
                y0 <= y1 <= bh,
                0 <= x0,
                x1 <= bw,
                x0 == (if x < 0 { 0 } else { x as int }),
                y0 == (if y < 0 { 0 } else { y as int }),
                x1 == (if x + tw > bw { bw as int } else if x + tw < 0 { 0 } else { x + tw }),
                y1 == (if y + th > bh { bh as int } else if y + th < 0 { 0 } else { y + th }),
                py <= y1 || y1 < y0,
                forall|qx: int, qy: int|
                    0 <= qx < bw && 0 <= qy < bh ==> #[trigger] self.indices()[cell(qx, qy, w)] == if qy
                        < py && under_top(qx, qy, tw as int, th as int, x as int, y as int) {
                        overlaid(orig[cell(qx, qy, w)], top.at(qx - x, qy - y))
                    } else {
                        orig[cell(qx, qy, w)]
                    },
            decreases y1 - py,
        {
            let mut px: i64 = x0;
            while px < x1
                invariant
                    self.wf(),
                    self.spec_width() == bw,
                    self.spec_height() == bh,
                    top.wf(),
                    top.spec_width() == tw,
                    top.spec_height() == th,
                    w == bw,
                    orig.len() == bw * bh,
                    0 <= y0 <= py < y1,
                    y1 <= bh,
                    0 <= x0 <= px,
                    x1 <= bw,
                    px <= x1 || x1 < x0,
                    x0 == (if x < 0 { 0 } else { x as int }),
                    y0 == (if y < 0 { 0 } else { y as int }),
                    x1 == (if x + tw > bw { bw as int } else if x + tw < 0 { 0 } else { x + tw }),
                    y1 == (if y + th > bh { bh as int } else if y + th < 0 { 0 } else { y + th }),
                    forall|qx: int, qy: int|
                        0 <= qx < bw && 0 <= qy < bh ==> #[trigger] self.indices()[cell(qx, qy, w)] == if (qy
                            < py || (qy == py && qx < px)) && under_top(
                            qx,
                            qy,
                            tw as int,
                            th as int,
                            x as int,
                            y as int,
                        ) {
                            overlaid(orig[cell(qx, qy, w)], top.at(qx - x, qy - y))
                        } else {
                            orig[cell(qx, qy, w)]
                        },
                decreases x1 - px,
            {
                let bx = px as u32;
                let by = py as u32;
                let tx = (px - x) as u32;
                let ty = (py - y) as u32;
                let p = top.get_pixel(tx, ty);
                let b = self.get_pixel(bx, by);
                let ghost before = self.indices();
                proof {
                    lemma_cell_in_bounds(bx as int, by as int, w, bh as int);
                    assert(before[cell(bx as int, by as int, w)] == orig[cell(bx as int, by as int, w)]);
                }
                let transparent = PaletteColorEnum::Transparent.to_color();
                let c = if p.0 == transparent.0 { b.0 } else { p.0 };
                gray_put(&mut self.image, bx, by, c);
                proof {
                    assert forall|qx: int, qy: int| 0 <= qx < bw && 0 <= qy < bh implies #[trigger] self.indices()[cell(
                        qx,
                        qy,
                        w,
                    )] == if (qy < py || (qy == py && qx < px + 1)) && under_top(
                        qx,
                        qy,
                        tw as int,
                        th as int,
                        x as int,
                        y as int,
                    ) {
                        overlaid(orig[cell(qx, qy, w)], top.at(qx - x, qy - y))
                    } else {
                        orig[cell(qx, qy, w)]
                    } by {
                        lemma_cell_in_bounds(qx, qy, w, bh as int);
                        if cell(qx, qy, w) == cell(bx as int, by as int, w) {
                            lemma_cell_injective(qx, qy, bx as int, by as int, w);
                        }
                    }
                }
                px = px + 1;
            }
            py = py + 1;
        }
        proof {
            assert forall|px: int, py: int| 0 <= px < bw && 0 <= py < bh implies #[trigger] self.at(px, py)
                == if under_top(px, py, tw as int, th as int, x as int, y as int) {
                overlaid(orig[cell(px, py, w)], top.at(px - x, py - y))
            } else {
                orig[cell(px, py, w)]
            } by {
                assert(self.indices()[cell(px, py, w)] == self.at(px, py));
            }
        }
    }

    /// The palette indices of the pixels, row by row.
    pub fn to_indices(&self) -> (r: Vec<u8>)
        ensures
            r@ == self.indices(),
    {
        gray_raw(&self.image)
    }
}

} // verus!
