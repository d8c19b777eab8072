//! The band renderer: every pixel of a band is mapped to a point of the
//! plane, the point is classified by its escape time, and the escape time
//! is turned into a shade of gray.
//!
//! The arithmetic on points is not part of this library. A caller hands in
//! two functions: the mapper, from a pixel to a point, and the evaluator,
//! from a point and an iteration limit to an escape time. The contracts
//! below speak of what these two return.

use crate::bounds::ImageBounds;
use crate::bounds::PlaneRegion;
use vstd::prelude::*;

verus! {

/// Iteration limit handed to the evaluator for every pixel.
pub const ITERATION_CAP: usize = 255;

/// Shade of a pixel: a point that never escaped is black, a point that
/// escaped after `count` iterations is `255 - count`, so the fastest
/// escapes are the lightest. A count at or above the cap, which no
/// evaluator that keeps to its limit returns, is black.
pub open spec fn shade_spec(escape: Option<usize>) -> u8 {
    match escape {
        Some(count) => if count < ITERATION_CAP {
            (ITERATION_CAP - count) as u8
        } else {
            0u8
        },
        None => 0u8,
    }
}

/// Shade of a pixel from the escape time of its point.
pub fn shade(escape: Option<usize>) -> (value: u8)
    ensures
        value == shade_spec(escape),
{
    match escape {
        Some(count) => if count < ITERATION_CAP {
            (ITERATION_CAP - count) as u8
        } else {
            0
        },
        None => 0,
    }
}

/// `value` is the shade of `pixel`: of the escape time that the evaluator
/// returned, under the cap, for the point that the mapper returned for the
/// pixel.
pub open spec fn pixel_rendered<P, M, E>(
    mapper: M,
    evaluator: E,
    bounds: ImageBounds,
    pixel: (usize, usize),
    region: PlaneRegion<P>,
    value: u8,
) -> bool where
    P: Copy,
    M: Fn(ImageBounds, (usize, usize), PlaneRegion<P>) -> P,
    E: Fn(P, usize) -> Option<usize>,
 {
    exists|point: P, escape: Option<usize>|
        #![trigger mapper.ensures((bounds, pixel, region), point), evaluator.ensures((point, ITERATION_CAP), escape)]
        mapper.ensures((bounds, pixel, region), point) && evaluator.ensures(
            (point, ITERATION_CAP),
            escape,
        ) && value == shade_spec(escape)
}

/// `pixels` is the rendering of the region at these bounds: one byte per
/// pixel, row after row from the top, each the shade of its pixel.
pub open spec fn rendered<P, M, E>(
    pixels: Seq<u8>,
    mapper: M,
    evaluator: E,
    bounds: ImageBounds,
    region: PlaneRegion<P>,
) -> bool where
    P: Copy,
    M: Fn(ImageBounds, (usize, usize), PlaneRegion<P>) -> P,
    E: Fn(P, usize) -> Option<usize>,
 {
    &&& pixels.len() == bounds.area()
    &&& forall|index: int|
        0 <= index < pixels.len() ==> pixel_rendered(
            mapper,
            evaluator,
            bounds,
            (bounds.col_of(index) as usize, bounds.row_of(index) as usize),
            region,
            #[trigger] pixels[index],
        )
}

/// The mapper accepts every pixel inside the bounds, and the evaluator
/// accepts, under the cap, every point that the mapper returns for one.
pub open spec fn can_render<P, M, E>(
    mapper: M,
    evaluator: E,
    bounds: ImageBounds,
    region: PlaneRegion<P>,
) -> bool where
    P: Copy,
    M: Fn(ImageBounds, (usize, usize), PlaneRegion<P>) -> P,
    E: Fn(P, usize) -> Option<usize>,
 {
    &&& forall|col: usize, row: usize|
        col < bounds.width && row < bounds.height ==> #[trigger] mapper.requires(
            (bounds, (col, row), region),
        )
    &&& forall|col: usize, row: usize, point: P|
        col < bounds.width && row < bounds.height && #[trigger] mapper.ensures(
            (bounds, (col, row), region),
            point,
        ) ==> evaluator.requires((point, ITERATION_CAP))
}

/// Renders a band into `pixels`, which holds one byte per pixel of the
/// band, row after row from the top.
pub fn render<P, M, E>(
    pixels: &mut [u8],
    bounds: ImageBounds,
    region: PlaneRegion<P>,
    mapper: &M,
    evaluator: &E,
) where
    P: Copy,
    M: Fn(ImageBounds, (usize, usize), PlaneRegion<P>) -> P,
    E: Fn(P, usize) -> Option<usize>,

    requires
        old(pixels)@.len() == bounds.area(),
        can_render(*mapper, *evaluator, bounds, region),
    ensures
        rendered(final(pixels)@, *mapper, *evaluator, bounds, region),
{
    let width = bounds.width;
    let height = bounds.height;
    let len = pixels.len();
    let mut row: usize = 0;
    while row < height
        invariant
            len == bounds.area(),
            width == bounds.width,
            height == bounds.height,
            row <= height,
            pixels@.len() == bounds.area(),
            can_render(*mapper, *evaluator, bounds, region),
            forall|index: int|
                0 <= index < row * width ==> pixel_rendered(
                    *mapper,
                    *evaluator,
                    bounds,
                    (bounds.col_of(index) as usize, bounds.row_of(index) as usize),
                    region,
                    #[trigger] pixels@[index],
                ),
        decreases height - row,
    {
        let mut col: usize = 0;
        while col < width
            invariant
                len == bounds.area(),
                width == bounds.width,
                height == bounds.height,
                row < height,
                col <= width,
                pixels@.len() == bounds.area(),
                can_render(*mapper, *evaluator, bounds, region),
                forall|index: int|
                    0 <= index < row * width + col ==> pixel_rendered(
                        *mapper,
                        *evaluator,
                        bounds,
                        (bounds.col_of(index) as usize, bounds.row_of(index) as usize),
                        region,
                        #[trigger] pixels@[index],
                    ),
            decreases width - col,
        {
            let point = mapper(bounds, (col, row), region);
            let escape = evaluator(point, ITERATION_CAP);
            let value = shade(escape);
            let index = bounds.pixel_index(col, row);
            pixels[index] = value;
            proof {
                assert(pixel_rendered(*mapper, *evaluator, bounds, (col, row), region, value));
            }
            col += 1;
        }
        proof {
            assert((row + 1) * width == row * width + width) by (nonlinear_arith);
        }
        row += 1;
    }
    proof {
        assert(row * width == bounds.area()) by (nonlinear_arith)
            requires
                row == bounds.height,
                width == bounds.width,
                bounds.area() == bounds.width * bounds.height,
        ;
    }
}

} // verus!
