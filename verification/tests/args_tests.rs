use mandelbrot::args::parse_bounds;
use mandelbrot::args::parse_pair;
use mandelbrot::args::parse_u64;
use mandelbrot::args::split_pair;
use mandelbrot::bounds::ImageBounds;

#[test]
fn parse_pair_reads_two_numbers() {
    assert_eq!(parse_pair("123x987", 'x'), Some((123u64, 987u64)));
    assert_eq!(parse_pair("10,20", ','), Some((10, 20)));
    assert_eq!(parse_pair("0x0", 'x'), Some((0, 0)));
}

#[test]
fn parse_pair_without_separator_is_none() {
    assert_eq!(parse_pair("123987", 'x'), None);
    assert_eq!(parse_pair("123,987", 'x'), None);
    assert_eq!(parse_pair("", 'x'), None);
}

#[test]
fn parse_pair_with_a_missing_side_is_none() {
    assert_eq!(parse_pair("10,", ','), None);
    assert_eq!(parse_pair(",10", ','), None);
    assert_eq!(parse_pair(",", ','), None);
}

#[test]
fn parse_pair_with_trailing_text_is_none() {
    assert_eq!(parse_pair("10,20xy", ','), None);
    assert_eq!(parse_pair("10,20,30", ','), None);
    assert_eq!(parse_pair("10x 20", 'x'), None);
}

#[test]
fn parse_pair_splits_at_the_first_separator() {
    assert_eq!(parse_pair("1xx2", 'x'), None);
    assert_eq!(split_pair("1xx2", 'x'), Some(("1", "x2")));
}

#[test]
fn split_pair_keeps_both_sides() {
    assert_eq!(split_pair("-1.20,0.35", ','), Some(("-1.20", "0.35")));
    assert_eq!(split_pair(",", ','), Some(("", "")));
    assert_eq!(split_pair("abc", ','), None);
    assert_eq!(split_pair("é→ü", '→'), Some(("é", "ü")));
}

#[test]
fn parse_u64_reads_digits() {
    assert_eq!(parse_u64("0"), Some(0));
    assert_eq!(parse_u64("007"), Some(7));
    assert_eq!(parse_u64("18446744073709551615"), Some(u64::MAX));
    assert_eq!(parse_u64("+42"), Some(42));
}

#[test]
fn parse_u64_rejects_what_is_no_number() {
    assert_eq!(parse_u64(""), None);
    assert_eq!(parse_u64("+"), None);
    assert_eq!(parse_u64("-1"), None);
    assert_eq!(parse_u64("++1"), None);
    assert_eq!(parse_u64("1+"), None);
    assert_eq!(parse_u64("12a"), None);
    assert_eq!(parse_u64(" 12"), None);
    assert_eq!(parse_u64("1.5"), None);
    assert_eq!(parse_u64("١٢"), None);
}

#[test]
fn parse_u64_rejects_overflow() {
    assert_eq!(parse_u64("18446744073709551616"), None);
    assert_eq!(parse_u64("99999999999999999999999"), None);
}

#[test]
fn parse_u64_agrees_with_std() {
    for text in ["0", "1", "+1", "00", "+007", "", "+", "x", "1x", "18446744073709551615",
        "18446744073709551616", "184467440737095516150", "-0", "+-1"]
    {
        assert_eq!(parse_u64(text), text.parse::<u64>().ok(), "{}", text);
    }
}

#[test]
fn parse_bounds_reads_width_and_height() {
    assert_eq!(parse_bounds("1000x750"), Some(ImageBounds { width: 1000, height: 750 }));
    assert_eq!(parse_bounds("0x5"), Some(ImageBounds { width: 0, height: 5 }));
}

#[test]
fn parse_bounds_rejects_other_text() {
    assert_eq!(parse_bounds("1000,750"), None);
    assert_eq!(parse_bounds("1000x"), None);
    assert_eq!(parse_bounds("x750"), None);
    assert_eq!(parse_bounds("1000x750x3"), None);
    assert_eq!(parse_bounds("99999999999999999999x1"), None);
}
