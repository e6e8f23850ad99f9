//! The mathematical model of a canvas: a grid of colors in row-major order.

use vstd::prelude::*;
use crate::color::Color;

verus! {

/// A grid of `width` by `height` colors. The color at column `x` of row `y`
/// stands at offset `x + y * width` of `pixels`.
pub struct Raster {
    pub width: nat,
    pub height: nat,
    pub pixels: Seq<Color>,
}

impl Raster {
    /// A raster holds exactly one color for each of its coordinates.
    pub open spec fn wf(self) -> bool {
        self.pixels.len() == self.width * self.height
    }

    /// Whether `(x, y)` is a coordinate of the raster.
    pub open spec fn contains(self, x: int, y: int) -> bool {
        0 <= x < self.width && 0 <= y < self.height
    }

    /// Where the color of `(x, y)` stands in `pixels`.
    pub open spec fn offset(self, x: int, y: int) -> int {
        x + y * self.width
    }

    /// The color at `(x, y)`.
    pub open spec fn at(self, x: int, y: int) -> Color
        recommends
            self.wf(),
            self.contains(x, y),
    {
        self.pixels[self.offset(x, y)]
    }

    /// The raster with the color at `(x, y)` replaced by `c`.
    pub open spec fn with_pixel(self, x: int, y: int, c: Color) -> Raster
        recommends
            self.wf(),
            self.contains(x, y),
    {
        Raster { pixels: self.pixels.update(self.offset(x, y), c), ..self }
    }

    /// The raster of the given size whose every color is black.
    pub open spec fn blank(width: nat, height: nat) -> Raster {
        Raster { width, height, pixels: Seq::new(width * height, |i: int| Color::black()) }
    }

    /// The offset of a coordinate lies within `pixels`.
    pub proof fn lemma_offset_bound(self, x: int, y: int)
        requires
            self.wf(),
            self.contains(x, y),
        ensures
            0 <= y * self.width <= self.offset(x, y) < self.pixels.len(),
    {
        let w = self.width as int;
        let h = self.height as int;
        assert(0 <= y * w && y * w + w <= h * w) by (nonlinear_arith)
            requires
                0 <= y < h,
                0 <= w,
        ;
    }

    /// Two coordinates with one offset are the same coordinate.
    pub proof fn lemma_offset_injective(self, x: int, y: int, i: int, j: int)
        requires
            self.contains(x, y),
            self.contains(i, j),
            self.offset(x, y) == self.offset(i, j),
        ensures
            x == i,
            y == j,
    {
        let w = self.width as int;
        assert(y == j) by (nonlinear_arith)
            requires
                0 <= x < w,
                0 <= i < w,
                x + y * w == i + j * w,
        ;
    }

    /// Reading back what was written gives the written color, and the write
    /// leaves the color at every other coordinate as it was.
    pub proof fn lemma_write_then_read(self, x: int, y: int, c: Color, i: int, j: int)
        requires
            self.wf(),
            self.contains(x, y),
            self.contains(i, j),
        ensures
            self.with_pixel(x, y, c).wf(),
            self.with_pixel(x, y, c).at(i, j) == if i == x && j == y {
                c
            } else {
                self.at(i, j)
            },
    {
        self.lemma_offset_bound(x, y);
        self.lemma_offset_bound(i, j);
        if self.offset(x, y) == self.offset(i, j) {
            self.lemma_offset_injective(x, y, i, j);
        }
    }

    /// Every color of a blank raster is black.
    pub proof fn lemma_blank_is_black(width: nat, height: nat, x: int, y: int)
        requires
            Raster::blank(width, height).contains(x, y),
        ensures
            Raster::blank(width, height).wf(),
            Raster::blank(width, height).at(x, y) == Color::black(),
    {
        Raster::blank(width, height).lemma_offset_bound(x, y);
    }
}

} // verus!
