use mandelbrot::bounds::ImageBounds;
use mandelbrot::schedule::plan_bands;
use mandelbrot::schedule::rows_per_band;
use mandelbrot::schedule::Band;

fn bounds(width: usize, height: usize) -> ImageBounds {
    ImageBounds { width, height }
}

#[test]
fn rows_per_band_rounds_up() {
    assert_eq!(rows_per_band(10, 8), 2);
    assert_eq!(rows_per_band(16, 8), 2);
    assert_eq!(rows_per_band(17, 8), 3);
    assert_eq!(rows_per_band(1, 8), 1);
    assert_eq!(rows_per_band(0, 8), 0);
    assert_eq!(rows_per_band(7, 1), 7);
}

#[test]
fn plan_bands_ten_rows_eight_workers() {
    let bands = plan_bands(bounds(3, 10), 8);
    assert_eq!(
        bands,
        vec![
            Band { top: 0, height: 2 },
            Band { top: 2, height: 2 },
            Band { top: 4, height: 2 },
            Band { top: 6, height: 2 },
            Band { top: 8, height: 2 },
        ]
    );
}

#[test]
fn plan_bands_last_band_is_shorter() {
    let bands = plan_bands(bounds(5, 7), 3);
    assert_eq!(
        bands,
        vec![
            Band { top: 0, height: 3 },
            Band { top: 3, height: 3 },
            Band { top: 6, height: 1 },
        ]
    );
}

#[test]
fn plan_bands_even_division_uses_every_worker() {
    let bands = plan_bands(bounds(4, 16), 8);
    assert_eq!(bands.len(), 8);
    for (index, band) in bands.iter().enumerate() {
        assert_eq!(*band, Band { top: 2 * index, height: 2 });
    }
}

#[test]
fn plan_bands_one_worker_is_one_band() {
    assert_eq!(plan_bands(bounds(9, 5), 1), vec![Band { top: 0, height: 5 }]);
}

#[test]
fn plan_bands_more_workers_than_rows() {
    let bands = plan_bands(bounds(2, 3), 8);
    assert_eq!(
        bands,
        vec![
            Band { top: 0, height: 1 },
            Band { top: 1, height: 1 },
            Band { top: 2, height: 1 },
        ]
    );
}

#[test]
fn plan_bands_no_rows_no_bands() {
    assert!(plan_bands(bounds(4, 0), 8).is_empty());
}

#[test]
fn bands_cover_every_row_once() {
    for height in 0..40usize {
        for workers in 1..12usize {
            let bands = plan_bands(bounds(3, height), workers);
            assert!(bands.len() <= workers);
            let mut next = 0usize;
            for band in &bands {
                assert_eq!(band.top, next);
                assert!(band.height > 0);
                next = band.top + band.height;
            }
            assert_eq!(next, height);
        }
    }
}

#[test]
fn band_geometry() {
    let image = bounds(6, 10);
    let band = Band { top: 4, height: 3 };
    assert_eq!(band.bounds(6), bounds(6, 3));
    assert_eq!(band.upper_left_pixel(), (0, 4));
    assert_eq!(band.lower_right_pixel(6), (6, 7));
    assert_eq!(band.offset(&image), 24);
    assert_eq!(band.len(&image), 18);
}
