use mandelbrot::bounds::ImageBounds;
use mandelbrot::encoder::decode;
use mandelbrot::encoder::encode;
use mandelbrot::encoder::ContainerError;

fn bounds(width: usize, height: usize) -> ImageBounds {
    ImageBounds { width, height }
}

#[test]
fn encode_writes_header_and_raster() {
    let bytes = encode(&[7, 9], bounds(2, 1)).unwrap();
    assert_eq!(bytes, b"\x50\x35\n2 1\n255\n\x07\x09".to_vec());
}

#[test]
fn encode_writes_dimensions_in_decimal() {
    let raster = vec![0u8; 1200];
    let bytes = encode(&raster, bounds(120, 10)).unwrap();
    assert_eq!(&bytes[..14], b"\x50\x35\n120 10\n255\n");
    assert_eq!(bytes.len(), 14 + 1200);
}

#[test]
fn encode_empty_image() {
    assert_eq!(encode(&[], bounds(0, 0)).unwrap(), b"\x50\x35\n0 0\n255\n".to_vec());
    assert_eq!(encode(&[], bounds(0, 3)).unwrap(), b"\x50\x35\n0 3\n255\n".to_vec());
}

#[test]
fn encode_rejects_wrong_length() {
    assert_eq!(encode(&[1, 2, 3], bounds(2, 2)), Err(ContainerError::WrongLength));
    assert_eq!(encode(&[1, 2, 3, 4, 5], bounds(2, 2)), Err(ContainerError::WrongLength));
    assert_eq!(encode(&[], bounds(usize::MAX, 2)), Err(ContainerError::WrongLength));
}

#[test]
fn decode_reads_what_encode_wrote() {
    let raster: Vec<u8> = (0..=255).collect();
    let bytes = encode(&raster, bounds(16, 16)).unwrap();
    assert_eq!(decode(&bytes), Ok((bounds(16, 16), raster)));
}

#[test]
fn round_trip_over_many_shapes() {
    for width in 0..12usize {
        for height in 0..12usize {
            let raster: Vec<u8> = (0..width * height).map(|i| (i * 37 % 256) as u8).collect();
            let bytes = encode(&raster, bounds(width, height)).unwrap();
            assert_eq!(decode(&bytes), Ok((bounds(width, height), raster)));
        }
    }
}

#[test]
fn round_trip_raster_that_looks_like_digits() {
    let raster = b"1234".to_vec();
    let bytes = encode(&raster, bounds(4, 1)).unwrap();
    assert_eq!(decode(&bytes), Ok((bounds(4, 1), raster)));
}

#[test]
fn decode_rejects_bad_magic() {
    assert_eq!(decode(b""), Err(ContainerError::BadMagic));
    assert_eq!(decode(b"\x50\x35"), Err(ContainerError::BadMagic));
    assert_eq!(decode(b"\x50\x36\n2 1\n255\n\x07\x09"), Err(ContainerError::BadMagic));
    assert_eq!(decode(b"\x50\x35 2 1\n255\n\x07\x09"), Err(ContainerError::BadMagic));
}

#[test]
fn decode_rejects_bad_header() {
    assert_eq!(decode(b"\x50\x35\n"), Err(ContainerError::BadHeader));
    assert_eq!(decode(b"\x50\x35\nx 1\n255\n"), Err(ContainerError::BadHeader));
    assert_eq!(decode(b"\x50\x35\n2"), Err(ContainerError::BadHeader));
    assert_eq!(decode(b"\x50\x35\n2\n1\n255\n\x07\x09"), Err(ContainerError::BadHeader));
    assert_eq!(decode(b"\x50\x35\n2 \n255\n"), Err(ContainerError::BadHeader));
    assert_eq!(decode(b"\x50\x35\n2  1\n255\n\x07\x09"), Err(ContainerError::BadHeader));
    assert_eq!(decode(b"\x50\x35\n2 1\n254\n\x07\x09"), Err(ContainerError::BadHeader));
    assert_eq!(decode(b"\x50\x35\n2 1\n255"), Err(ContainerError::BadHeader));
    assert_eq!(decode(b"\x50\x35\n2 1 255\n\x07\x09"), Err(ContainerError::BadHeader));
}

#[test]
fn decode_rejects_leading_zeros() {
    assert_eq!(decode(b"\x50\x35\n02 1\n255\n\x07\x09"), Err(ContainerError::BadHeader));
    assert_eq!(decode(b"\x50\x35\n2 01\n255\n\x07\x09"), Err(ContainerError::BadHeader));
    assert_eq!(decode(b"\x50\x35\n00 0\n255\n"), Err(ContainerError::BadHeader));
}

#[test]
fn decode_rejects_numbers_too_large() {
    assert_eq!(
        decode(b"\x50\x35\n99999999999999999999999999 1\n255\n"),
        Err(ContainerError::BadHeader)
    );
}

#[test]
fn decode_rejects_wrong_length() {
    assert_eq!(decode(b"\x50\x35\n2 1\n255\n\x07"), Err(ContainerError::WrongLength));
    assert_eq!(decode(b"\x50\x35\n2 1\n255\n\x07\x09\x0b"), Err(ContainerError::WrongLength));
    assert_eq!(decode(b"\x50\x35\n0 0\n255\n\x00"), Err(ContainerError::WrongLength));
    assert_eq!(
        decode(b"\x50\x35\n4294967296 4294967296\n255\n"),
        Err(ContainerError::WrongLength)
    );
}
