use mandelbrot::bounds::ImageBounds;

#[test]
fn new_accepts_positive_sides() {
    assert_eq!(ImageBounds::new(100, 200), Some(ImageBounds { width: 100, height: 200 }));
}

#[test]
fn new_rejects_zero_sides_and_overflow() {
    assert_eq!(ImageBounds::new(0, 5), None);
    assert_eq!(ImageBounds::new(5, 0), None);
    assert_eq!(ImageBounds::new(usize::MAX, 2), None);
}

#[test]
fn pixel_count_is_width_times_height() {
    assert_eq!(ImageBounds { width: 100, height: 200 }.pixel_count(), Some(20000));
    assert_eq!(ImageBounds { width: 0, height: 7 }.pixel_count(), Some(0));
    assert_eq!(ImageBounds { width: usize::MAX, height: 2 }.pixel_count(), None);
}

#[test]
fn pixel_index_is_row_major() {
    let bounds = ImageBounds { width: 100, height: 200 };
    assert_eq!(bounds.pixel_index(0, 0), 0);
    assert_eq!(bounds.pixel_index(25, 175), 17525);
    assert_eq!(bounds.pixel_index(99, 199), 19999);
}

#[test]
fn pixel_at_inverts_pixel_index() {
    let bounds = ImageBounds { width: 7, height: 5 };
    assert_eq!(bounds.pixel_at(17), (3, 2));
    for row in 0..5 {
        for col in 0..7 {
            assert_eq!(bounds.pixel_at(bounds.pixel_index(col, row)), (col, row));
        }
    }
}
