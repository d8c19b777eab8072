use mandelbrot::banded::band_region;
use mandelbrot::banded::render_banded;
use mandelbrot::banded::split_bands;
use mandelbrot::bounds::ImageBounds;
use mandelbrot::bounds::PlaneRegion;
use mandelbrot::render::render;
use mandelbrot::render::shade;
use mandelbrot::render::ITERATION_CAP;
use mandelbrot::schedule::plan_bands;
use mandelbrot::schedule::Band;

type Point = (f64, f64);

fn pixel_to_point(bounds: ImageBounds, pixel: (usize, usize), region: PlaneRegion<Point>) -> Point {
    let width = region.lower_right.0 - region.upper_left.0;
    let height = region.upper_left.1 - region.lower_right.1;
    (
        region.upper_left.0 + pixel.0 as f64 * width / bounds.width as f64,
        region.upper_left.1 - pixel.1 as f64 * height / bounds.height as f64,
    )
}

fn escape_time(c: Point, limit: usize) -> Option<usize> {
    let mut z = (0.0f64, 0.0f64);
    for i in 0..limit {
        if z.0 * z.0 + z.1 * z.1 > 4.0 {
            return Some(i);
        }
        z = (z.0 * z.0 - z.1 * z.1 + c.0, 2.0 * z.0 * z.1 + c.1);
    }
    None
}

fn grid_point(_bounds: ImageBounds, pixel: (usize, usize), region: PlaneRegion<usize>) -> usize {
    region.upper_left + 10 * pixel.1 + pixel.0
}

fn count_of(point: usize, _limit: usize) -> Option<usize> {
    if point % 7 == 0 {
        None
    } else {
        Some(point)
    }
}

const SMALL: [u8; 24] = [
    254, 253, 252, 251, 0, 253, 254, 252, 250, 0, 0, 250, 0, 0, 0, 0, 0, 250, 254, 252, 250, 0, 0,
    250,
];

fn small_region() -> PlaneRegion<Point> {
    PlaneRegion { upper_left: (-2.0, 1.0), lower_right: (1.0, -1.0) }
}

#[test]
fn iteration_cap_is_255() {
    assert_eq!(ITERATION_CAP, 255);
}

#[test]
fn shade_is_255_minus_count() {
    assert_eq!(shade(Some(0)), 255);
    assert_eq!(shade(Some(1)), 254);
    assert_eq!(shade(Some(100)), 155);
    assert_eq!(shade(Some(254)), 1);
}

#[test]
fn shade_of_bounded_point_is_black() {
    assert_eq!(shade(None), 0);
}

#[test]
fn shade_at_or_above_cap_is_black() {
    assert_eq!(shade(Some(255)), 0);
    assert_eq!(shade(Some(256)), 0);
    assert_eq!(shade(Some(usize::MAX)), 0);
}

#[test]
fn render_fills_row_major() {
    let bounds = ImageBounds { width: 3, height: 2 };
    let region = PlaneRegion { upper_left: 1usize, lower_right: 0usize };
    let mut pixels = vec![9u8; 6];
    render(&mut pixels, bounds, region, &grid_point, &count_of);
    assert_eq!(pixels, vec![254, 253, 252, 244, 243, 242]);
}

#[test]
fn render_hands_the_cap_to_the_evaluator() {
    let bounds = ImageBounds { width: 2, height: 1 };
    let region = PlaneRegion { upper_left: 0usize, lower_right: 0usize };
    let mut pixels = vec![0u8; 2];
    render(&mut pixels, bounds, region, &grid_point, &|_point: usize, limit: usize| {
        Some(limit - 250)
    });
    assert_eq!(pixels, vec![250, 250]);
}

#[test]
fn render_empty_band_writes_nothing() {
    let bounds = ImageBounds { width: 4, height: 0 };
    let mut pixels: Vec<u8> = Vec::new();
    render(&mut pixels, bounds, small_region(), &pixel_to_point, &escape_time);
    assert!(pixels.is_empty());
}

#[test]
fn render_small_image_with_real_arithmetic() {
    let bounds = ImageBounds { width: 6, height: 4 };
    let mut pixels = vec![0u8; 24];
    render(&mut pixels, bounds, small_region(), &pixel_to_point, &escape_time);
    assert_eq!(pixels, SMALL.to_vec());
}

#[test]
fn mapper_scenario_quarter_point() {
    let bounds = ImageBounds { width: 100, height: 200 };
    let region = PlaneRegion { upper_left: (-1.0, 1.0), lower_right: (1.0, -1.0) };
    assert_eq!(pixel_to_point(bounds, (25, 175), region), (-0.5, -0.75));
}

#[test]
fn evaluator_scenarios() {
    assert_eq!(escape_time((2.0, 2.0), 10), Some(1));
    assert_eq!(escape_time((0.25, 0.5), 100), None);
    assert_eq!(escape_time((0.0, 0.0), 1000), None);
}

#[test]
fn band_region_maps_the_corners() {
    let bounds = ImageBounds { width: 6, height: 4 };
    let band = Band { top: 1, height: 2 };
    let part = band_region(bounds, small_region(), band, &pixel_to_point);
    assert_eq!(part.upper_left, (-2.0, 0.5));
    assert_eq!(part.lower_right, (1.0, -0.5));
}

#[test]
fn render_banded_matches_one_piece() {
    let bounds = ImageBounds { width: 6, height: 4 };
    for workers in [1usize, 2, 3, 4, 8] {
        let raster = render_banded(bounds, small_region(), workers, &pixel_to_point, &escape_time);
        assert_eq!(raster, SMALL.to_vec());
    }
}

#[test]
fn render_banded_one_and_eight_workers_agree() {
    let bounds = ImageBounds { width: 40, height: 30 };
    let region = PlaneRegion { upper_left: (-1.25, 0.375), lower_right: (-1.0, 0.25) };
    let one = render_banded(bounds, region, 1, &pixel_to_point, &escape_time);
    let eight = render_banded(bounds, region, 8, &pixel_to_point, &escape_time);
    assert_eq!(one.len(), 1200);
    assert_eq!(one, eight);
}

#[test]
fn render_banded_uses_band_local_coordinates() {
    let bounds = ImageBounds { width: 2, height: 3 };
    let region = PlaneRegion { upper_left: 1usize, lower_right: 0usize };
    let raster = render_banded(bounds, region, 3, &grid_point, &count_of);
    assert_eq!(raster, vec![254, 253, 244, 243, 0, 233]);
}

#[test]
fn render_banded_zero_sized_images() {
    let none = render_banded(
        ImageBounds { width: 5, height: 0 },
        small_region(),
        4,
        &pixel_to_point,
        &escape_time,
    );
    assert!(none.is_empty());
    let thin = render_banded(
        ImageBounds { width: 0, height: 5 },
        small_region(),
        4,
        &pixel_to_point,
        &escape_time,
    );
    assert!(thin.is_empty());
}

#[test]
fn split_bands_cuts_at_band_borders() {
    let bounds = ImageBounds { width: 3, height: 7 };
    let mut raster: Vec<u8> = (0..21).collect();
    {
        let runs = split_bands(&mut raster, bounds, 3);
        assert_eq!(runs.len(), 3);
        assert_eq!(runs[0].to_vec(), (0..9).collect::<Vec<u8>>());
        assert_eq!(runs[1].to_vec(), (9..18).collect::<Vec<u8>>());
        assert_eq!(runs[2].to_vec(), (18..21).collect::<Vec<u8>>());
        for (index, run) in runs.into_iter().enumerate() {
            for byte in run.iter_mut() {
                *byte = 100 + index as u8;
            }
        }
    }
    let mut expected = vec![100u8; 9];
    expected.extend(vec![101u8; 9]);
    expected.extend(vec![102u8; 3]);
    assert_eq!(raster, expected);
}

#[test]
fn rendering_each_run_of_split_bands_gives_the_banded_image() {
    let bounds = ImageBounds { width: 6, height: 4 };
    let workers = 3;
    let mut raster = vec![0u8; 24];
    let bands = plan_bands(bounds, workers);
    {
        let runs = split_bands(&mut raster, bounds, workers);
        assert_eq!(runs.len(), bands.len());
        // Last band first: the runs are independent of each other.
        for (band, run) in bands.iter().zip(runs).rev() {
            let part = band_region(bounds, small_region(), *band, &pixel_to_point);
            render(run, band.bounds(bounds.width), part, &pixel_to_point, &escape_time);
        }
    }
    assert_eq!(raster, SMALL.to_vec());
    assert_eq!(
        raster,
        render_banded(bounds, small_region(), workers, &pixel_to_point, &escape_time)
    );
}
