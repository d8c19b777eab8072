//! Rendering a whole image band by band.
//!
//! The raster is cut into one run of bytes per band of the schedule. Each
//! run is rendered as an image of its own, over the part of the plane that
//! the mapper assigns to the band's corners. The runs do not overlap, so
//! each can be handed to a worker of its own.

use crate::bounds::lemma_index_in_raster;
use crate::bounds::lemma_pixel_of_index;
use crate::bounds::ImageBounds;
use crate::bounds::PlaneRegion;
use crate::render::pixel_rendered;
use crate::render::render;
use crate::render::rendered;
use crate::render::shade_spec;
use crate::render::ITERATION_CAP;
use crate::schedule::band_count_spec;
use crate::schedule::band_spec;
use crate::schedule::lemma_band_in_raster;
use crate::schedule::lemma_band_shape;
use crate::schedule::lemma_row_band;
use crate::schedule::lemma_schedule_shape;
use crate::schedule::plan_bands;
use crate::schedule::rows_per_band_spec;
use crate::schedule::schedule_spec;
use crate::schedule::Band;
use vstd::prelude::*;

verus! {

/// The mapper and the evaluator accept every input.
pub open spec fn total<P, M, E>(mapper: M, evaluator: E) -> bool where
    P: Copy,
    M: Fn(ImageBounds, (usize, usize), PlaneRegion<P>) -> P,
    E: Fn(P, usize) -> Option<usize>,
 {
    &&& forall|bounds: ImageBounds, pixel: (usize, usize), region: PlaneRegion<P>| #[trigger]
        mapper.requires((bounds, pixel, region))
    &&& forall|point: P, limit: usize| #[trigger] evaluator.requires((point, limit))
}

/// `band_region` is the part of the plane that belongs to the band: its
/// corners are the points that the mapper returned, within the whole image
/// and the whole region, for the pixel at the band's upper left and for the
/// pixel just past its lower right.
pub open spec fn band_region_of<P, M>(
    mapper: M,
    bounds: ImageBounds,
    region: PlaneRegion<P>,
    band: Band,
    band_region: PlaneRegion<P>,
) -> bool where P: Copy, M: Fn(ImageBounds, (usize, usize), PlaneRegion<P>) -> P {
    &&& mapper.ensures((bounds, (0usize, band.top), region), band_region.upper_left)
    &&& mapper.ensures(
        (bounds, (bounds.width, band.end() as usize), region),
        band_region.lower_right,
    )
}

/// `pixels` is the rendering of the band as an image of its own, over the
/// band's part of the plane.
pub open spec fn band_rendered<P, M, E>(
    pixels: Seq<u8>,
    mapper: M,
    evaluator: E,
    bounds: ImageBounds,
    region: PlaneRegion<P>,
    band: Band,
) -> bool where
    P: Copy,
    M: Fn(ImageBounds, (usize, usize), PlaneRegion<P>) -> P,
    E: Fn(P, usize) -> Option<usize>,
 {
    exists|band_region: PlaneRegion<P>| #[trigger]
        band_region_of(mapper, bounds, region, band, band_region) && rendered(
            pixels,
            mapper,
            evaluator,
            ImageBounds { width: bounds.width, height: band.height },
            band_region,
        )
}

/// The bytes of the raster that belong to the band.
pub open spec fn band_pixels(raster: Seq<u8>, width: int, band: Band) -> Seq<u8> {
    raster.subrange(band.offset_spec(width), band.offset_spec(width) + band.len_spec(width))
}

/// `raster` is the image rendered band by band for `thread_count` workers:
/// it holds one byte per pixel, and the bytes of each band of the schedule
/// are the rendering of that band.
pub open spec fn banded<P, M, E>(
    raster: Seq<u8>,
    mapper: M,
    evaluator: E,
    bounds: ImageBounds,
    region: PlaneRegion<P>,
    thread_count: usize,
) -> bool where
    P: Copy,
    M: Fn(ImageBounds, (usize, usize), PlaneRegion<P>) -> P,
    E: Fn(P, usize) -> Option<usize>,
 {
    &&& raster.len() == bounds.area()
    &&& forall|index: int|
        0 <= index < band_count_spec(bounds.height as int, thread_count as int) ==> band_rendered(
            band_pixels(
                raster,
                bounds.width as int,
                #[trigger] band_spec(bounds.height as int, thread_count as int, index),
            ),
            mapper,
            evaluator,
            bounds,
            region,
            band_spec(bounds.height as int, thread_count as int, index),
        )
}

/// The part of the plane that belongs to a band.
pub fn band_region<P, M>(
    bounds: ImageBounds,
    region: PlaneRegion<P>,
    band: Band,
    mapper: &M,
) -> (result: PlaneRegion<P>) where
    P: Copy,
    M: Fn(ImageBounds, (usize, usize), PlaneRegion<P>) -> P,

    requires
        band.end() <= usize::MAX,
        mapper.requires((bounds, (0usize, band.top), region)),
        mapper.requires((bounds, (bounds.width, band.end() as usize), region)),
    ensures
        band_region_of(*mapper, bounds, region, band, result),
{
    let upper_left = mapper(bounds, band.upper_left_pixel(), region);
    let lower_right = mapper(bounds, band.lower_right_pixel(bounds.width), region);
    PlaneRegion { upper_left, lower_right }
}

/// Cuts the raster into the bytes of each band of the schedule, in order.
///
/// The runs are disjoint and together make up the raster: what the raster
/// holds once the runs are given back is what was written through them, one
/// run after the other.
pub fn split_bands<'a>(raster: &'a mut [u8], bounds: ImageBounds, thread_count: usize) -> (runs:
    Vec<&'a mut [u8]>)
    requires
        thread_count >= 1,
        old(raster)@.len() == bounds.area(),
    ensures
        runs@.len() == band_count_spec(bounds.height as int, thread_count as int),
        forall|index: int|
            0 <= index < runs@.len() ==> runs@[index]@ == band_pixels(
                old(raster)@,
                bounds.width as int,
                #[trigger] band_spec(bounds.height as int, thread_count as int, index),
            ),
        final(raster)@ == Seq::new(runs@.len(), |index: int| final(runs@[index])@).flatten(),
{
    let ghost before = old(raster)@;
    let ghost after = final(raster)@;
    let ghost width = bounds.width as int;
    let ghost height = bounds.height as int;
    let ghost workers = thread_count as int;
    let total_len = raster.len();
    let bands = plan_bands(bounds, thread_count);
    let mut runs: Vec<&'a mut [u8]> = Vec::new();
    let mut rest: &'a mut [u8] = raster;
    let mut index: usize = 0;
    let ghost mut start: int = 0;
    proof {
        lemma_schedule_shape(height, workers);
        if bands@.len() > 0 {
            lemma_band_shape(height, workers, 0);
        }
        assert(before.subrange(0, before.len() as int) =~= before);
        assert(Seq::new(runs@.len(), |i: int| final(runs@[i])@).flatten() =~= Seq::<u8>::empty());
    }
    while index < bands.len()
        invariant
            thread_count >= 1,
            width == bounds.width,
            height == bounds.height,
            workers == thread_count,
            total_len == bounds.area(),
            before.len() == total_len,
            bands@ == schedule_spec(height, workers),
            bands@.len() == band_count_spec(height, workers),
            index <= bands@.len(),
            runs@.len() == index,
            0 <= start <= total_len,
            index < bands@.len() ==> start == bands@[index as int].offset_spec(width),
            index == bands@.len() ==> start == total_len,
            rest@ == before.subrange(start, total_len as int),
            after == Seq::new(runs@.len(), |i: int| final(runs@[i])@).flatten() + final(rest)@,
            forall|i: int|
                0 <= i < index ==> runs@[i]@ == band_pixels(
                    before,
                    width,
                    #[trigger] band_spec(height, workers, i),
                ),
        decreases bands@.len() - index,
    {
        let band = bands[index];
        proof {
            lemma_band_shape(height, workers, index as int);
            lemma_band_in_raster(band, bounds);
            if index + 1 < bands@.len() {
                lemma_band_shape(height, workers, index + 1);
                assert((index + 1) * rows_per_band_spec(height, workers) == index
                    * rows_per_band_spec(height, workers) + rows_per_band_spec(height, workers))
                    by (nonlinear_arith);
                assert((band.top + band.height) * width == bands@[index + 1].top * width);
            } else {
                assert(band.end() * width == bounds.area()) by (nonlinear_arith)
                    requires
                        band.end() == bounds.height,
                        width == bounds.width,
                        bounds.area() == bounds.width * bounds.height,
                ;
            }
        }
        let len = band.len(&bounds);
        let whole = rest;
        let (run, tail) = whole.split_at_mut(len);
        let ghost earlier = Seq::new(runs@.len(), |i: int| final(runs@[i])@);
        let ghost run_after = final(run)@;
        let ghost tail_after = final(tail)@;
        proof {
            assert(run@ =~= band_pixels(before, width, band));
            assert(tail@ =~= before.subrange(start + len, total_len as int));
            start = start + len;
        }
        runs.push(run);
        proof {
            let later = Seq::new(runs@.len(), |i: int| final(runs@[i])@);
            assert(later =~= earlier.push(run_after));
            earlier.lemma_flatten_push(run_after);
            assert(earlier.flatten() + (run_after + tail_after) =~= later.flatten() + tail_after);
        }
        rest = tail;
        index += 1;
    }
    proof {
        let flat = Seq::new(runs@.len(), |i: int| final(runs@[i])@).flatten();
        assert(flat + rest@ =~= flat);
    }
    runs
}

/// Renders the whole image band by band, on the calling thread, into a new
/// raster. Each band is rendered by [`render`] into its own run of bytes,
/// over its own part of the plane, as a worker of its own would.
pub fn render_banded<P, M, E>(
    bounds: ImageBounds,
    region: PlaneRegion<P>,
    thread_count: usize,
    mapper: &M,
    evaluator: &E,
) -> (raster: Vec<u8>) where
    P: Copy,
    M: Fn(ImageBounds, (usize, usize), PlaneRegion<P>) -> P,
    E: Fn(P, usize) -> Option<usize>,

    requires
        thread_count >= 1,
        bounds.area() <= usize::MAX,
        total(*mapper, *evaluator),
    ensures
        banded(raster@, *mapper, *evaluator, bounds, region, thread_count),
{
    let ghost width = bounds.width as int;
    let ghost height = bounds.height as int;
    let ghost workers = thread_count as int;
    let total_len = bounds.width * bounds.height;
    let bands = plan_bands(bounds, thread_count);
    let mut raster: Vec<u8> = vec![0u8; total_len];
    let ghost mut done: Seq<u8> = Seq::empty();
    let mut rest: &mut [u8] = raster.as_mut_slice();
    let mut index: usize = 0;
    proof {
        lemma_schedule_shape(height, workers);
        if bands@.len() > 0 {
            lemma_band_shape(height, workers, 0);
        }
    }
    while index < bands.len()
        invariant
            thread_count >= 1,
            width == bounds.width,
            height == bounds.height,
            workers == thread_count,
            total_len == bounds.area(),
            total(*mapper, *evaluator),
            bands@ == schedule_spec(height, workers),
            bands@.len() == band_count_spec(height, workers),
            index <= bands@.len(),
            0 <= done.len() <= total_len,
            index < bands@.len() ==> done.len() == bands@[index as int].offset_spec(width),
            index == bands@.len() ==> done.len() == total_len,
            rest@.len() == total_len - done.len(),
            after_borrow(raster)@ == done + final(rest)@,
            forall|i: int|
                0 <= i < index ==> band_rendered(
                    band_pixels(done, width, #[trigger] band_spec(height, workers, i)),
                    *mapper,
                    *evaluator,
                    bounds,
                    region,
                    band_spec(height, workers, i),
                ),
            forall|i: int|
                0 <= i < index ==> (#[trigger] band_spec(height, workers, i)).offset_spec(width)
                    + band_spec(height, workers, i).len_spec(width) <= done.len(),
        decreases bands@.len() - index,
    {
        let band = bands[index];
        proof {
            lemma_band_shape(height, workers, index as int);
            lemma_band_in_raster(band, bounds);
            if index + 1 < bands@.len() {
                lemma_band_shape(height, workers, index + 1);
                assert((index + 1) * rows_per_band_spec(height, workers) == index
                    * rows_per_band_spec(height, workers) + rows_per_band_spec(height, workers))
                    by (nonlinear_arith);
                assert((band.top + band.height) * width == bands@[index + 1].top * width);
            } else {
                assert(band.end() * width == bounds.area()) by (nonlinear_arith)
                    requires
                        band.end() == bounds.height,
                        width == bounds.width,
                        bounds.area() == bounds.width * bounds.height,
                ;
            }
        }
        let len = band.len(&bounds);
        let band_bounds = band.bounds(bounds.width);
        let part = band_region(bounds, region, band, mapper);
        let whole = rest;
        let (run, tail) = whole.split_at_mut(len);
        proof {
            assert(band_bounds.area() == len) by (nonlinear_arith)
                requires
                    band_bounds.area() == band_bounds.width * band_bounds.height,
                    band_bounds.width == width,
                    band_bounds.height == band.height,
                    len == band.height * width,
            ;
        }
        render(run, band_bounds, part, mapper, evaluator);
        proof {
            let ghost earlier = done;
            done = done + run@;
            assert(band_pixels(done, width, band) =~= run@);
            assert(band_region_of(*mapper, bounds, region, band, part));
            assert(band_rendered(
                band_pixels(done, width, band),
                *mapper,
                *evaluator,
                bounds,
                region,
                band,
            ));
            assert forall|i: int| 0 <= i < index implies band_rendered(
                band_pixels(done, width, #[trigger] band_spec(height, workers, i)),
                *mapper,
                *evaluator,
                bounds,
                region,
                band_spec(height, workers, i),
            ) by {
                let other = band_spec(height, workers, i);
                lemma_band_shape(height, workers, i);
                lemma_band_in_raster(other, bounds);
                assert(band_pixels(done, width, other) =~= band_pixels(earlier, width, other));
            }
            assert(earlier + (run@ + final(tail)@) =~= done + final(tail)@);
        }
        rest = tail;
        index += 1;
    }
    proof {
        assert(done + rest@ =~= done);
    }
    raster
}

/// The mapper and the evaluator each return one result for one input.
pub open spec fn deterministic<P, M, E>(mapper: M, evaluator: E) -> bool where
    P: Copy,
    M: Fn(ImageBounds, (usize, usize), PlaneRegion<P>) -> P,
    E: Fn(P, usize) -> Option<usize>,
 {
    &&& forall|input: (ImageBounds, (usize, usize), PlaneRegion<P>), first: P, second: P|
        #![trigger mapper.ensures(input, first), mapper.ensures(input, second)]
        mapper.ensures(input, first) && mapper.ensures(input, second) ==> first == second
    &&& forall|input: (P, usize), first: Option<usize>, second: Option<usize>|
        #![trigger evaluator.ensures(input, first), evaluator.ensures(input, second)]
        evaluator.ensures(input, first) && evaluator.ensures(input, second) ==> first == second
}

/// Mapping a pixel through a band's own bounds and part of the plane gives
/// the point that mapping it through the whole image and region gives.
///
/// Exact arithmetic on points has this property. Rounding arithmetic need
/// not: the band's corners are themselves rounded.
pub open spec fn composes<P, M>(mapper: M, bounds: ImageBounds, region: PlaneRegion<P>) -> bool where
    P: Copy,
    M: Fn(ImageBounds, (usize, usize), PlaneRegion<P>) -> P,
 {
    forall|band: Band, band_region: PlaneRegion<P>, col: usize, row: usize, point: P|
        #![trigger
            band_region_of(mapper, bounds, region, band, band_region),
            mapper.ensures(
                (ImageBounds { width: bounds.width, height: band.height }, (col, row), band_region),
                point,
            )
        ]
        band.end() <= bounds.height && col < bounds.width && row < band.height && band_region_of(
            mapper,
            bounds,
            region,
            band,
            band_region,
        ) && mapper.ensures(
            (ImageBounds { width: bounds.width, height: band.height }, (col, row), band_region),
            point,
        ) ==> mapper.ensures((bounds, (col, (band.top + row) as usize), region), point)
}

/// Where the mapper composes over bands, an image rendered band by band is
/// the image rendered in one piece.
pub proof fn lemma_banded_is_direct<P, M, E>(
    raster: Seq<u8>,
    mapper: M,
    evaluator: E,
    bounds: ImageBounds,
    region: PlaneRegion<P>,
    thread_count: usize,
) where
    P: Copy,
    M: Fn(ImageBounds, (usize, usize), PlaneRegion<P>) -> P,
    E: Fn(P, usize) -> Option<usize>,

    requires
        thread_count >= 1,
        banded(raster, mapper, evaluator, bounds, region, thread_count),
        composes(mapper, bounds, region),
    ensures
        rendered(raster, mapper, evaluator, bounds, region),
{
    let width = bounds.width as int;
    let height = bounds.height as int;
    let workers = thread_count as int;
    let stride = rows_per_band_spec(height, workers);
    assert forall|index: int| 0 <= index < raster.len() implies pixel_rendered(
        mapper,
        evaluator,
        bounds,
        (bounds.col_of(index) as usize, bounds.row_of(index) as usize),
        region,
        #[trigger] raster[index],
    ) by {
        lemma_pixel_of_index(bounds, index);
        let col = bounds.col_of(index);
        let row = bounds.row_of(index);
        lemma_row_band(height, workers, row);
        let band = band_spec(height, workers, row / stride);
        lemma_band_shape(height, workers, row / stride);
        lemma_band_in_raster(band, bounds);
        let band_bounds = ImageBounds { width: bounds.width, height: band.height };
        let pixels = band_pixels(raster, width, band);
        let local = index - band.offset_spec(width);
        let local_row = row - band.top;
        assert(local == band_bounds.index_of(col, local_row)) by (nonlinear_arith)
            requires
                index == row * width + col,
                local == index - band.top * width,
                local_row == row - band.top,
                band_bounds.index_of(col, local_row) == local_row * width + col,
        ;
        lemma_index_in_raster(band_bounds, col, local_row);
        assert(band_bounds.area() == band.len_spec(width)) by (nonlinear_arith)
            requires
                band_bounds.area() == band_bounds.width * band_bounds.height,
                band_bounds.width == width,
                band_bounds.height == band.height,
                band.len_spec(width) == band.height * width,
        ;
        assert(pixels[local] == raster[index]);
        assert(band_rendered(pixels, mapper, evaluator, bounds, region, band));
        let band_region = choose|band_region: PlaneRegion<P>| #[trigger]
            band_region_of(mapper, bounds, region, band, band_region) && rendered(
                pixels,
                mapper,
                evaluator,
                band_bounds,
                band_region,
            );
        assert(pixel_rendered(
            mapper,
            evaluator,
            band_bounds,
            (band_bounds.col_of(local) as usize, band_bounds.row_of(local) as usize),
            band_region,
            pixels[local],
        ));
        let (point, escape) = choose|point: P, escape: Option<usize>|
            #![trigger mapper.ensures((band_bounds, (col as usize, local_row as usize), band_region), point), evaluator.ensures((point, ITERATION_CAP), escape)]
            mapper.ensures((band_bounds, (col as usize, local_row as usize), band_region), point)
                && evaluator.ensures((point, ITERATION_CAP), escape) && pixels[local]
                == shade_spec(escape);
        assert(mapper.ensures((bounds, (col as usize, row as usize), region), point));
    }
}

/// Where the mapper and the evaluator are deterministic, a region has one
/// rendering at given bounds.
pub proof fn lemma_rendering_unique<P, M, E>(
    first: Seq<u8>,
    second: Seq<u8>,
    mapper: M,
    evaluator: E,
    bounds: ImageBounds,
    region: PlaneRegion<P>,
) where
    P: Copy,
    M: Fn(ImageBounds, (usize, usize), PlaneRegion<P>) -> P,
    E: Fn(P, usize) -> Option<usize>,

    requires
        rendered(first, mapper, evaluator, bounds, region),
        rendered(second, mapper, evaluator, bounds, region),
        deterministic(mapper, evaluator),
    ensures
        first == second,
{
    assert forall|index: int| 0 <= index < first.len() implies first[index] == second[index] by {
        let pixel = (bounds.col_of(index) as usize, bounds.row_of(index) as usize);
        assert(pixel_rendered(mapper, evaluator, bounds, pixel, region, first[index]));
        assert(pixel_rendered(mapper, evaluator, bounds, pixel, region, second[index]));
        let (first_point, first_escape) = choose|point: P, escape: Option<usize>|
            #![trigger mapper.ensures((bounds, pixel, region), point), evaluator.ensures((point, ITERATION_CAP), escape)]
            mapper.ensures((bounds, pixel, region), point) && evaluator.ensures(
                (point, ITERATION_CAP),
                escape,
            ) && first[index] == shade_spec(escape);
        let (second_point, second_escape) = choose|point: P, escape: Option<usize>|
            #![trigger mapper.ensures((bounds, pixel, region), point), evaluator.ensures((point, ITERATION_CAP), escape)]
            mapper.ensures((bounds, pixel, region), point) && evaluator.ensures(
                (point, ITERATION_CAP),
                escape,
            ) && second[index] == shade_spec(escape);
        assert(first_point == second_point);
        assert(first_escape == second_escape);
    }
    assert(first =~= second);
}

/// Rendering the same bounds and region for two numbers of workers gives
/// the same raster, byte for byte, where the mapper and the evaluator are
/// deterministic and the mapper composes over bands.
pub proof fn lemma_thread_count_independent<P, M, E>(
    first: Seq<u8>,
    second: Seq<u8>,
    mapper: M,
    evaluator: E,
    bounds: ImageBounds,
    region: PlaneRegion<P>,
    first_count: usize,
    second_count: usize,
) where
    P: Copy,
    M: Fn(ImageBounds, (usize, usize), PlaneRegion<P>) -> P,
    E: Fn(P, usize) -> Option<usize>,

    requires
        first_count >= 1,
        second_count >= 1,
        banded(first, mapper, evaluator, bounds, region, first_count),
        banded(second, mapper, evaluator, bounds, region, second_count),
        deterministic(mapper, evaluator),
        composes(mapper, bounds, region),
    ensures
        first == second,
{
    lemma_banded_is_direct(first, mapper, evaluator, bounds, region, first_count);
    lemma_banded_is_direct(second, mapper, evaluator, bounds, region, second_count);
    lemma_rendering_unique(first, second, mapper, evaluator, bounds, region);
}

} // verus!
