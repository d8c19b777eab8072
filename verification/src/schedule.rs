//! The partition of an image into horizontal bands, one per worker.

use crate::bounds::ImageBounds;
use vstd::prelude::*;

verus! {

/// A run of consecutive rows of the image: rows `top .. top + height`.
#[derive(Clone, Copy, Debug, PartialEq, Eq, Structural)]
pub struct Band {
    pub top: usize,
    pub height: usize,
}

/// The least number of groups of `size` that hold `count` items.
pub open spec fn ceil_div(count: int, size: int) -> int {
    if count % size == 0 {
        count / size
    } else {
        count / size + 1
    }
}

/// Rows given to each worker: the height divided by the number of workers,
/// rounded up.
pub open spec fn rows_per_band_spec(height: int, thread_count: int) -> int {
    ceil_div(height, thread_count)
}

/// Number of bands that hold at least one row.
pub open spec fn band_count_spec(height: int, thread_count: int) -> int {
    if height <= 0 {
        0
    } else {
        ceil_div(height, rows_per_band_spec(height, thread_count))
    }
}

/// The `index`-th band: it starts `index` strides down the image and is one
/// stride high, less where the image ends first.
pub open spec fn band_spec(height: int, thread_count: int, index: int) -> Band {
    let stride = rows_per_band_spec(height, thread_count);
    let top = index * stride;
    Band {
        top: top as usize,
        height: (if height - top < stride {
            height - top
        } else {
            stride
        }) as usize,
    }
}

/// The bands of an image of `height` rows shared among `thread_count`
/// workers, from the top down.
pub open spec fn schedule_spec(height: int, thread_count: int) -> Seq<Band> {
    Seq::new(
        band_count_spec(height, thread_count) as nat,
        |index: int| band_spec(height, thread_count, index),
    )
}

/// The bands cover the rows `0 .. height`: none is empty, every row of the
/// image lies in a band, no row lies in two, and no band reaches past the
/// image.
pub open spec fn partitions(bands: Seq<Band>, height: int) -> bool {
    &&& forall|i: int| 0 <= i < bands.len() ==> (#[trigger] bands[i]).height > 0
    &&& forall|row: int| 0 <= row < height ==> #[trigger] covered(bands, row)
    &&& forall|i: int, j: int, row: int|
        0 <= i < bands.len() && 0 <= j < bands.len() && #[trigger] bands[i].holds_row(row)
            && #[trigger] bands[j].holds_row(row) ==> i == j
    &&& forall|i: int, row: int|
        0 <= i < bands.len() && #[trigger] bands[i].holds_row(row) ==> 0 <= row < height
}

/// Some band holds the row.
pub open spec fn covered(bands: Seq<Band>, row: int) -> bool {
    exists|i: int| 0 <= i < bands.len() && #[trigger] bands[i].holds_row(row)
}

/// Each band starts where the one before it ends; the first starts at row 0
/// and the last ends at row `height`.
pub open spec fn stacked(bands: Seq<Band>, height: int) -> bool {
    &&& bands.len() == 0 ==> height == 0
    &&& bands.len() > 0 ==> bands[0].top == 0 && bands[bands.len() - 1].end() == height
    &&& forall|i: int|
        0 <= i < bands.len() - 1 ==> (#[trigger] bands[i]).end() == bands[i + 1].top
}

impl Band {
    /// The row just below the band.
    pub open spec fn end(self) -> int {
        self.top + self.height
    }

    /// The band holds the row.
    pub open spec fn holds_row(self, row: int) -> bool {
        self.top <= row < self.top + self.height
    }

    /// Position in the raster of the band's first pixel.
    pub open spec fn offset_spec(self, width: int) -> int {
        self.top * width
    }

    /// Number of pixels of the band.
    pub open spec fn len_spec(self, width: int) -> int {
        self.height * width
    }

    /// The band seen as an image of its own: as wide as the whole image, as
    /// high as the band.
    pub fn bounds(&self, width: usize) -> (bounds: ImageBounds)
        ensures
            bounds.width == width,
            bounds.height == self.height,
    {
        ImageBounds { width, height: self.height }
    }

    /// The pixel of the whole image at the band's upper left corner.
    pub fn upper_left_pixel(&self) -> (pixel: (usize, usize))
        ensures
            pixel == (0usize, self.top),
    {
        (0, self.top)
    }

    /// The pixel of the whole image just past the band's lower right corner.
    pub fn lower_right_pixel(&self, width: usize) -> (pixel: (usize, usize))
        requires
            self.end() <= usize::MAX,
        ensures
            pixel.0 == width,
            pixel.1 == self.end(),
    {
        (width, self.top + self.height)
    }

    /// Position in the raster of the band's first pixel.
    pub fn offset(&self, bounds: &ImageBounds) -> (offset: usize)
        requires
            self.end() <= bounds.height,
            bounds.area() <= usize::MAX,
        ensures
            offset == self.offset_spec(bounds.width as int),
            offset + self.len_spec(bounds.width as int) <= bounds.area(),
    {
        proof {
            lemma_band_in_raster(*self, *bounds);
        }
        self.top * bounds.width
    }

    /// Number of pixels of the band.
    pub fn len(&self, bounds: &ImageBounds) -> (len: usize)
        requires
            self.end() <= bounds.height,
            bounds.area() <= usize::MAX,
        ensures
            len == self.len_spec(bounds.width as int),
            self.offset_spec(bounds.width as int) + len <= bounds.area(),
    {
        proof {
            lemma_band_in_raster(*self, *bounds);
        }
        self.height * bounds.width
    }
}

/// A band inside the image occupies a range of the raster.
pub proof fn lemma_band_in_raster(band: Band, bounds: ImageBounds)
    requires
        band.end() <= bounds.height,
    ensures
        0 <= band.offset_spec(bounds.width as int),
        0 <= band.len_spec(bounds.width as int),
        band.offset_spec(bounds.width as int) + band.len_spec(bounds.width as int)
            == band.end() * bounds.width,
        band.end() * bounds.width <= bounds.area(),
{
    let w = bounds.width as int;
    let t = band.top as int;
    let h = band.height as int;
    let full = bounds.height as int;
    assert(0 <= t * w && 0 <= h * w && t * w + h * w == (t + h) * w && (t + h) * w <= w * full)
        by (nonlinear_arith)
        requires
            0 <= t,
            0 <= h,
            0 <= w,
            t + h <= full,
    ;
}

/// `ceil_div(count, size)` is the least number of groups: that many groups
/// hold the items, and one group fewer does not.
pub proof fn lemma_ceil_div(count: int, size: int)
    requires
        0 <= count,
        0 < size,
    ensures
        0 <= ceil_div(count, size) <= count,
        count <= ceil_div(count, size) * size,
        count > 0 ==> (ceil_div(count, size) - 1) * size < count,
        count > 0 ==> ceil_div(count, size) > 0,
{
    let q = count / size;
    let r = count % size;
    assert(count == size * q + r && 0 <= r < size) by {
        vstd::arithmetic::div_mod::lemma_fundamental_div_mod(count, size);
        vstd::arithmetic::div_mod::lemma_mod_bound(count, size);
    }
    assert(0 <= q <= count && size * q == q * size && (q + 1) * size == q * size + size && (q
        - 1) * size == q * size - size) by (nonlinear_arith)
        requires
            count == size * q + r,
            0 <= r < size,
            0 <= count,
    ;
    assert(size * q >= q && (q == 0 ==> size * q == 0)) by (nonlinear_arith)
        requires
            0 <= q,
            0 < size,
    ;
}

/// The stride is positive for an image with rows, and there are at most
/// `thread_count` bands.
pub proof fn lemma_schedule_shape(height: int, thread_count: int)
    requires
        0 <= height <= usize::MAX,
        1 <= thread_count,
    ensures
        0 <= rows_per_band_spec(height, thread_count) <= height,
        height > 0 ==> rows_per_band_spec(height, thread_count) > 0,
        0 <= band_count_spec(height, thread_count) <= thread_count,
        band_count_spec(height, thread_count) <= height,
        height > 0 ==> band_count_spec(height, thread_count) > 0,
        height <= band_count_spec(height, thread_count) * rows_per_band_spec(
            height,
            thread_count,
        ),
        height > 0 ==> (band_count_spec(height, thread_count) - 1) * rows_per_band_spec(
            height,
            thread_count,
        ) < height,
{
    let stride = rows_per_band_spec(height, thread_count);
    let count = band_count_spec(height, thread_count);
    lemma_ceil_div(height, thread_count);
    if height > 0 {
        lemma_ceil_div(height, stride);
        assert(count <= thread_count) by (nonlinear_arith)
            requires
                height <= stride * thread_count,
                (count - 1) * stride < height,
                0 < stride,
        ;
    } else {
        assert(count * stride == 0) by (nonlinear_arith)
            requires
                count == 0,
        ;
    }
}

/// Each band of the schedule has rows, lies inside the image and is one
/// stride high, but for the last, which ends with the image.
pub proof fn lemma_band_shape(height: int, thread_count: int, index: int)
    requires
        0 <= height <= usize::MAX,
        1 <= thread_count,
        0 <= index < band_count_spec(height, thread_count),
    ensures
        0 <= index * rows_per_band_spec(height, thread_count) < height,
        band_spec(height, thread_count, index).top == index * rows_per_band_spec(
            height,
            thread_count,
        ),
        0 < band_spec(height, thread_count, index).height <= rows_per_band_spec(
            height,
            thread_count,
        ),
        band_spec(height, thread_count, index).end() <= height,
        index + 1 < band_count_spec(height, thread_count) ==> band_spec(
            height,
            thread_count,
            index,
        ).height == rows_per_band_spec(height, thread_count),
        index + 1 == band_count_spec(height, thread_count) ==> band_spec(
            height,
            thread_count,
            index,
        ).end() == height,
{
    let stride = rows_per_band_spec(height, thread_count);
    let count = band_count_spec(height, thread_count);
    lemma_schedule_shape(height, thread_count);
    let top = index * stride;
    assert(0 <= top && top <= (count - 1) * stride) by (nonlinear_arith)
        requires
            0 <= index <= count - 1,
            0 < stride,
            top == index * stride,
    ;
    if index + 1 < count {
        assert(top + stride <= (count - 1) * stride) by (nonlinear_arith)
            requires
                0 <= index,
                index + 2 <= count,
                0 < stride,
                top == index * stride,
        ;
    } else {
        assert(top + stride == count * stride) by (nonlinear_arith)
            requires
                index + 1 == count,
                top == index * stride,
        ;
    }
}

/// For every height and every positive number of workers, the bands of the
/// schedule cover the rows of the image exactly: no row is left out and none
/// is rendered twice.
pub proof fn lemma_schedule_partitions(height: int, thread_count: int)
    requires
        0 <= height <= usize::MAX,
        1 <= thread_count,
    ensures
        partitions(schedule_spec(height, thread_count), height),
        stacked(schedule_spec(height, thread_count), height),
{
    let stride = rows_per_band_spec(height, thread_count);
    let count = band_count_spec(height, thread_count);
    let bands = schedule_spec(height, thread_count);
    lemma_schedule_shape(height, thread_count);
    assert forall|row: int| 0 <= row < height implies #[trigger] covered(bands, row) by {
        let i = row / stride;
        lemma_row_band(height, thread_count, row);
        assert(bands[i].holds_row(row));
    }
    assert forall|i: int, j: int, row: int|
        0 <= i < bands.len() && 0 <= j < bands.len() && #[trigger] bands[i].holds_row(row)
            && #[trigger] bands[j].holds_row(row) implies i == j by {
        lemma_band_shape(height, thread_count, i);
        lemma_band_shape(height, thread_count, j);
        assert(i == j) by (nonlinear_arith)
            requires
                i * stride <= row < i * stride + stride,
                j * stride <= row < j * stride + stride,
                0 < stride,
        ;
    }
    assert forall|i: int| 0 <= i < bands.len() - 1 implies (#[trigger] bands[i]).end() == bands[i
        + 1].top by {
        lemma_band_shape(height, thread_count, i);
        lemma_band_shape(height, thread_count, i + 1);
        assert((i + 1) * stride == i * stride + stride) by (nonlinear_arith);
    }
    assert forall|i: int| 0 <= i < bands.len() implies (#[trigger] bands[i]).height > 0 by {
        lemma_band_shape(height, thread_count, i);
    }
    assert forall|i: int, row: int|
        0 <= i < bands.len() && #[trigger] bands[i].holds_row(row) implies 0 <= row < height by {
        lemma_band_shape(height, thread_count, i);
    }
    if count > 0 {
        lemma_band_shape(height, thread_count, 0);
        lemma_band_shape(height, thread_count, count - 1);
    }
}

/// The band that holds a row of the image is the one whose index is the row
/// divided by the stride.
pub proof fn lemma_row_band(height: int, thread_count: int, row: int)
    requires
        0 <= row < height,
        height <= usize::MAX,
        1 <= thread_count,
    ensures
        0 <= row / rows_per_band_spec(height, thread_count) < band_count_spec(
            height,
            thread_count,
        ),
        band_spec(
            height,
            thread_count,
            row / rows_per_band_spec(height, thread_count),
        ).holds_row(row),
        row - band_spec(height, thread_count, row / rows_per_band_spec(height, thread_count)).top
            == row % rows_per_band_spec(height, thread_count),
{
    let stride = rows_per_band_spec(height, thread_count);
    let count = band_count_spec(height, thread_count);
    lemma_schedule_shape(height, thread_count);
    let i = row / stride;
    let r = row % stride;
    assert(row == stride * i + r && 0 <= r < stride) by {
        vstd::arithmetic::div_mod::lemma_fundamental_div_mod(row, stride);
        vstd::arithmetic::div_mod::lemma_mod_bound(row, stride);
    }
    assert(0 <= i < count && i * stride == stride * i) by (nonlinear_arith)
        requires
            row == stride * i + r,
            0 <= r < stride,
            0 <= row < height,
            height <= count * stride,
    ;
    lemma_band_shape(height, thread_count, i);
}

/// Rows given to each worker.
pub fn rows_per_band(height: usize, thread_count: usize) -> (stride: usize)
    requires
        thread_count >= 1,
    ensures
        stride == rows_per_band_spec(height as int, thread_count as int),
{
    proof {
        lemma_ceil_div(height as int, thread_count as int);
    }
    if height % thread_count == 0 {
        height / thread_count
    } else {
        height / thread_count + 1
    }
}

/// The bands of an image shared among `thread_count` workers, from the top
/// down. Only bands with rows are listed, so there may be fewer bands than
/// workers.
pub fn plan_bands(bounds: ImageBounds, thread_count: usize) -> (bands: Vec<Band>)
    requires
        thread_count >= 1,
    ensures
        bands@ == schedule_spec(bounds.height as int, thread_count as int),
        bands@.len() <= thread_count,
        partitions(bands@, bounds.height as int),
        stacked(bands@, bounds.height as int),
{
    let height = bounds.height;
    let stride = rows_per_band(height, thread_count);
    let ghost count = band_count_spec(height as int, thread_count as int);
    proof {
        lemma_schedule_shape(height as int, thread_count as int);
        lemma_schedule_partitions(height as int, thread_count as int);
    }
    let mut bands: Vec<Band> = Vec::new();
    let mut top: usize = 0;
    while top < height
        invariant
            thread_count >= 1,
            height == bounds.height,
            stride == rows_per_band_spec(height as int, thread_count as int),
            count == band_count_spec(height as int, thread_count as int),
            0 <= bands@.len() <= count,
            top <= height,
            top < height ==> top == bands@.len() * stride,
            top == height ==> bands@.len() == count,
            forall|i: int|
                0 <= i < bands@.len() ==> bands@[i] == band_spec(
                    height as int,
                    thread_count as int,
                    i,
                ),
        decreases height - top,
    {
        let ghost index = bands@.len() as int;
        proof {
            lemma_schedule_shape(height as int, thread_count as int);
            assert(index < count) by (nonlinear_arith)
                requires
                    index * stride < height,
                    height <= count * stride,
                    0 < stride,
            ;
            lemma_band_shape(height as int, thread_count as int, index);
            assert((index + 1) * stride == index * stride + stride) by (nonlinear_arith);
            if index + 1 < count {
                lemma_band_shape(height as int, thread_count as int, index + 1);
            }
        }
        let band_height = if height - top < stride {
            height - top
        } else {
            stride
        };
        bands.push(Band { top, height: band_height });
        top = top + band_height;
    }
    proof {
        assert(bands@ =~= schedule_spec(height as int, thread_count as int));
    }
    bands
}

} // verus!
