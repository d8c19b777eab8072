//! Image dimensions, plane regions and the row-major layout of a raster.

use vstd::arithmetic::div_mod::lemma_fundamental_div_mod_converse;
use vstd::arithmetic::mul::lemma_mul_inequality;
use vstd::arithmetic::mul::lemma_mul_is_commutative;
use vstd::arithmetic::mul::lemma_mul_is_distributive_add_other_way;
use vstd::prelude::*;

verus! {

/// Width and height of an image, in pixels.
#[derive(Clone, Copy, Debug, PartialEq, Eq, Structural)]
pub struct ImageBounds {
    pub width: usize,
    pub height: usize,
}

/// A rectangle of the plane, given by two opposite corners.
///
/// The point type `P` is left to the caller: the library never looks inside
/// a point, it only hands points from the mapper to the evaluator.
#[derive(Debug)]
pub struct PlaneRegion<P> {
    pub upper_left: P,
    pub lower_right: P,
}

impl<P: Copy> Clone for PlaneRegion<P> {
    fn clone(&self) -> (result: Self)
        ensures
            result == *self,
    {
        *self
    }
}

impl<P: Copy> Copy for PlaneRegion<P> {

}

impl ImageBounds {
    /// Number of pixels of an image of these bounds.
    pub open spec fn area(self) -> nat {
        (self.width * self.height) as nat
    }

    /// Position in the raster of the pixel in column `col` of row `row`.
    pub open spec fn index_of(self, col: int, row: int) -> int {
        row * self.width + col
    }

    /// Column of the pixel at position `index` of the raster.
    pub open spec fn col_of(self, index: int) -> int {
        index % (self.width as int)
    }

    /// Row of the pixel at position `index` of the raster.
    pub open spec fn row_of(self, index: int) -> int {
        index / (self.width as int)
    }

    /// The bounds of an image, or `None` where a side is zero or the pixel
    /// count does not fit in `usize`.
    pub fn new(width: usize, height: usize) -> (result: Option<ImageBounds>)
        ensures
            result is Some <==> width > 0 && height > 0 && width * height <= usize::MAX,
            result matches Some(bounds) ==> bounds.width == width && bounds.height == height,
    {
        if width == 0 || height == 0 {
            return None;
        }
        match width.checked_mul(height) {
            Some(_) => Some(ImageBounds { width, height }),
            None => None,
        }
    }

    /// Length of a raster of these bounds, or `None` where it does not fit
    /// in `usize`.
    pub fn pixel_count(&self) -> (result: Option<usize>)
        ensures
            result is Some <==> self.area() <= usize::MAX,
            result matches Some(count) ==> count == self.area(),
    {
        self.width.checked_mul(self.height)
    }

    /// Position in the raster of a pixel inside the image.
    pub fn pixel_index(&self, col: usize, row: usize) -> (index: usize)
        requires
            col < self.width,
            row < self.height,
            self.area() <= usize::MAX,
        ensures
            index == self.index_of(col as int, row as int),
            index < self.area(),
            self.col_of(index as int) == col,
            self.row_of(index as int) == row,
    {
        proof {
            lemma_index_in_raster(*self, col as int, row as int);
        }
        row * self.width + col
    }

    /// Column and row of the pixel at a position of the raster.
    pub fn pixel_at(&self, index: usize) -> (pixel: (usize, usize))
        requires
            index < self.area(),
        ensures
            pixel.0 == self.col_of(index as int),
            pixel.1 == self.row_of(index as int),
            pixel.0 < self.width,
            pixel.1 < self.height,
            self.index_of(pixel.0 as int, pixel.1 as int) == index,
    {
        proof {
            lemma_pixel_of_index(*self, index as int);
        }
        (index % self.width, index / self.width)
    }
}

/// A pixel inside the image lies inside the raster, and its position
/// determines its column and row.
pub proof fn lemma_index_in_raster(bounds: ImageBounds, col: int, row: int)
    requires
        0 <= col < bounds.width,
        0 <= row < bounds.height,
    ensures
        0 <= bounds.index_of(col, row) < bounds.area(),
        bounds.col_of(bounds.index_of(col, row)) == col,
        bounds.row_of(bounds.index_of(col, row)) == row,
{
    let w = bounds.width as int;
    let h = bounds.height as int;
    assert(0 <= row * w) by (nonlinear_arith)
        requires
            0 <= row,
            0 <= w,
    ;
    assert((row + 1) * w <= h * w) by {
        lemma_mul_inequality(row + 1, h, w);
    }
    assert((row + 1) * w == row * w + w) by {
        lemma_mul_is_distributive_add_other_way(w, row, 1);
    }
    assert(h * w == w * h) by {
        lemma_mul_is_commutative(h, w);
    }
    lemma_fundamental_div_mod_converse(row * w + col, w, row, col);
}

/// Every position of the raster belongs to one pixel inside the image.
pub proof fn lemma_pixel_of_index(bounds: ImageBounds, index: int)
    requires
        0 <= index < bounds.area(),
    ensures
        0 <= bounds.col_of(index) < bounds.width,
        0 <= bounds.row_of(index) < bounds.height,
        bounds.index_of(bounds.col_of(index), bounds.row_of(index)) == index,
{
    let w = bounds.width as int;
    let h = bounds.height as int;
    assert(w > 0) by (nonlinear_arith)
        requires
            0 <= index < w * h,
            0 <= w,
            0 <= h,
    ;
    let q = index / w;
    let r = index % w;
    assert(index == w * q + r && 0 <= r < w) by {
        vstd::arithmetic::div_mod::lemma_fundamental_div_mod(index, w);
        vstd::arithmetic::div_mod::lemma_mod_bound(index, w);
    }
    assert(q * w == w * q) by {
        lemma_mul_is_commutative(q, w);
    }
    assert(0 <= q < h) by (nonlinear_arith)
        requires
            index == w * q + r,
            0 <= r < w,
            0 <= index < w * h,
            0 <= h,
    ;
}

} // verus!
