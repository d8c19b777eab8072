//! The image container: a binary graymap of the Netpbm family.
//!
//! A container is the two bytes of the format's magic (the letter `P` and
//! the digit five), a line feed, the width and the height in decimal with
//! one space between them, a line feed, the depth `255`, a line feed, and
//! then the raster, one byte per pixel, row after row from the top. Numbers
//! are written without leading zeros.

use crate::bounds::ImageBounds;
use vstd::prelude::*;

verus! {

/// Why a raster could not be written, or why bytes are not a container.
#[derive(Clone, Copy, Debug, PartialEq, Eq, Structural)]
pub enum ContainerError {
    /// The bytes do not start with the magic and its line feed.
    BadMagic,
    /// The magic is not followed by the dimensions and the depth, written
    /// as a container writes them.
    BadHeader,
    /// The raster does not hold one byte per pixel.
    WrongLength,
}

/// The byte `0`..`9` for a value below ten.
pub open spec fn digit(value: nat) -> u8 {
    (0x30 + value) as u8
}

/// The byte is one of `0`..`9`.
pub open spec fn is_digit(byte: u8) -> bool {
    0x30 <= byte <= 0x39
}

/// A number in decimal, without leading zeros.
pub open spec fn decimal(value: nat) -> Seq<u8>
    decreases value,
{
    if value < 10 {
        seq![digit(value)]
    } else {
        decimal(value / 10).push(digit(value % 10))
    }
}

/// The number that a run of digits stands for.
pub open spec fn decimal_value(digits: Seq<u8>) -> nat
    decreases digits.len(),
{
    if digits.len() == 0 {
        0
    } else {
        (10 * decimal_value(digits.drop_last()) + (digits.last() - 0x30)) as nat
    }
}

/// The magic of a binary graymap and a line feed.
pub open spec fn magic() -> Seq<u8> {
    seq![0x50u8, 0x35u8, 0x0au8]
}

/// A line feed, `255`, and a line feed.
pub open spec fn depth_line() -> Seq<u8> {
    seq![0x0au8, 0x32u8, 0x35u8, 0x35u8, 0x0au8]
}

/// What a container holds before the raster.
pub open spec fn header(bounds: ImageBounds) -> Seq<u8> {
    magic() + decimal(bounds.width as nat) + seq![0x20u8] + decimal(bounds.height as nat)
        + depth_line()
}

/// The container of a raster of the given bounds.
pub open spec fn container(bounds: ImageBounds, raster: Seq<u8>) -> Seq<u8> {
    header(bounds) + raster
}

/// The bytes start with the header of an image of these bounds.
pub open spec fn has_header(bytes: Seq<u8>, bounds: ImageBounds) -> bool {
    header(bounds).is_prefix_of(bytes)
}

/// What the bytes hold: the bounds and the raster of the container that
/// they are, or why they are none.
pub open spec fn decode_spec(bytes: Seq<u8>) -> Result<(ImageBounds, Seq<u8>), ContainerError> {
    if !magic().is_prefix_of(bytes) {
        Err(ContainerError::BadMagic)
    } else if !exists|bounds: ImageBounds| has_header(bytes, bounds) {
        Err(ContainerError::BadHeader)
    } else {
        let bounds = choose|bounds: ImageBounds| has_header(bytes, bounds);
        if bytes.len() - header(bounds).len() == bounds.area() {
            Ok((bounds, bytes.skip(header(bounds).len() as int)))
        } else {
            Err(ContainerError::WrongLength)
        }
    }
}

/// A decimal is a run of digits, at least one, and starts with `0` only
/// where it is `0` itself. It stands for the number it was written from.
pub proof fn lemma_decimal(value: nat)
    ensures
        decimal(value).len() >= 1,
        forall|i: int| 0 <= i < decimal(value).len() ==> is_digit(#[trigger] decimal(value)[i]),
        decimal(value).len() > 1 ==> decimal(value)[0] != 0x30,
        decimal(value).len() == 1 <==> value < 10,
        decimal_value(decimal(value)) == value,
    decreases value,
{
    let digits = decimal(value);
    if value < 10 {
        assert(digits.drop_last() =~= Seq::<u8>::empty());
        assert(decimal_value(digits.drop_last()) == 0);
        assert(digits.last() == digit(value));
    } else {
        lemma_decimal(value / 10);
        let rest = decimal(value / 10);
        assert(digits.drop_last() =~= rest);
        assert(digits.last() == digit(value % 10));
        assert(digits[0] == rest[0]);
        if rest.len() == 1 {
            assert(rest[0] == digit(value / 10));
        }
    }
}

/// A run of digits stands for at least as much as any run it starts with.
pub proof fn lemma_decimal_value_prefix(digits: Seq<u8>, len: int)
    requires
        0 <= len <= digits.len(),
        forall|i: int| 0 <= i < digits.len() ==> is_digit(#[trigger] digits[i]),
    ensures
        decimal_value(digits.take(len)) <= decimal_value(digits),
    decreases digits.len(),
{
    if len == digits.len() {
        assert(digits.take(len) =~= digits);
    } else {
        lemma_decimal_value_prefix(digits.drop_last(), len);
        assert(digits.drop_last().take(len) =~= digits.take(len));
    }
}

/// At `start` the bytes hold the decimal of `value`, which ends at `end`:
/// there the bytes end, or a byte follows that is no digit.
pub open spec fn numeral_at(bytes: Seq<u8>, start: int, value: nat, end: int) -> bool {
    &&& 0 <= start < end <= bytes.len()
    &&& bytes.subrange(start, end) == decimal(value)
    &&& end < bytes.len() ==> !is_digit(bytes[end])
}

/// The bytes hold at most one numeral at a place.
pub proof fn lemma_numeral_unique(
    bytes: Seq<u8>,
    start: int,
    first: nat,
    first_end: int,
    second: nat,
    second_end: int,
)
    requires
        numeral_at(bytes, start, first, first_end),
        numeral_at(bytes, start, second, second_end),
    ensures
        first == second,
        first_end == second_end,
{
    lemma_decimal(first);
    lemma_decimal(second);
    if first_end < second_end {
        assert(bytes.subrange(start, second_end)[first_end - start] == bytes[first_end]);
    }
    if second_end < first_end {
        assert(bytes.subrange(start, first_end)[second_end - start] == bytes[second_end]);
    }
}

/// Where the width ends in the header of an image of these bounds.
pub open spec fn width_end(bounds: ImageBounds) -> int {
    3 + decimal(bounds.width as nat).len() as int
}

/// Where the height ends in the header of an image of these bounds.
pub open spec fn height_end(bounds: ImageBounds) -> int {
    width_end(bounds) + 1 + decimal(bounds.height as nat).len() as int
}

/// Where the parts of a header stand in bytes that start with it.
pub proof fn lemma_header_layout(bytes: Seq<u8>, bounds: ImageBounds)
    requires
        has_header(bytes, bounds),
    ensures
        magic().is_prefix_of(bytes),
        numeral_at(bytes, 3, bounds.width as nat, width_end(bounds)),
        bytes[width_end(bounds)] == 0x20,
        numeral_at(bytes, width_end(bounds) + 1, bounds.height as nat, height_end(bounds)),
        bytes.subrange(height_end(bounds), height_end(bounds) + 5) == depth_line(),
        header(bounds).len() == height_end(bounds) + 5,
{
    let width = decimal(bounds.width as nat);
    let height = decimal(bounds.height as nat);
    let head = header(bounds);
    let w = width.len() as int;
    let h = height.len() as int;
    lemma_decimal(bounds.width as nat);
    lemma_decimal(bounds.height as nat);
    assert(head.len() == 9 + w + h);
    assert forall|i: int| 0 <= i < head.len() implies bytes[i] == head[i] by {}
    assert(magic() =~= bytes.subrange(0, 3));
    assert(bytes.subrange(3, 3 + w) =~= width) by {
        assert forall|i: int| 0 <= i < w implies bytes.subrange(3, 3 + w)[i] == width[i] by {
            assert(head[3 + i] == width[i]);
        }
    }
    assert(head[3 + w] == 0x20);
    assert(bytes.subrange(4 + w, 4 + w + h) =~= height) by {
        assert forall|i: int| 0 <= i < h implies bytes.subrange(4 + w, 4 + w + h)[i]
            == height[i] by {
            assert(head[4 + w + i] == height[i]);
        }
    }
    assert(head[4 + w + h] == 0x0a);
    assert(bytes.subrange(4 + w + h, 9 + w + h) =~= depth_line()) by {
        assert forall|i: int| 0 <= i < 5 implies bytes.subrange(4 + w + h, 9 + w + h)[i]
            == depth_line()[i] by {
            assert(head[4 + w + h + i] == depth_line()[i]);
        }
    }
}

/// Bytes that hold the parts of a header, one after the other, start with
/// that header.
pub proof fn lemma_header_found(
    bytes: Seq<u8>,
    bounds: ImageBounds,
    width_end: int,
    height_end: int,
)
    requires
        magic().is_prefix_of(bytes),
        numeral_at(bytes, 3, bounds.width as nat, width_end),
        width_end < bytes.len(),
        bytes[width_end] == 0x20,
        numeral_at(bytes, width_end + 1, bounds.height as nat, height_end),
        height_end + 5 <= bytes.len(),
        bytes.subrange(height_end, height_end + 5) == depth_line(),
    ensures
        has_header(bytes, bounds),
        header(bounds).len() == height_end + 5,
{
    let width = decimal(bounds.width as nat);
    let height = decimal(bounds.height as nat);
    let head = header(bounds);
    let w = width.len() as int;
    let h = height.len() as int;
    assert(bytes.subrange(3, width_end).len() == w);
    assert(bytes.subrange(width_end + 1, height_end).len() == h);
    assert(head.len() == 9 + w + h);
    assert forall|i: int| 0 <= i < head.len() implies bytes[i] == head[i] by {
        if i < 3 {
            assert(magic()[i] == bytes[i]);
        } else if i < 3 + w {
            assert(bytes.subrange(3, width_end)[i - 3] == bytes[i]);
        } else if i == 3 + w {
        } else if i < 4 + w + h {
            assert(bytes.subrange(width_end + 1, height_end)[i - 4 - w] == bytes[i]);
        } else {
            assert(bytes.subrange(height_end, height_end + 5)[i - 4 - w - h] == bytes[i]);
        }
    }
    assert(head =~= bytes.subrange(0, head.len() as int));
}

/// Bytes start with the header of at most one image.
pub proof fn lemma_header_unique(bytes: Seq<u8>, first: ImageBounds, second: ImageBounds)
    requires
        has_header(bytes, first),
        has_header(bytes, second),
    ensures
        first == second,
{
    lemma_header_layout(bytes, first);
    lemma_header_layout(bytes, second);
    lemma_numeral_unique(
        bytes,
        3,
        first.width as nat,
        width_end(first),
        second.width as nat,
        width_end(second),
    );
    lemma_numeral_unique(
        bytes,
        width_end(first) + 1,
        first.height as nat,
        height_end(first),
        second.height as nat,
        height_end(second),
    );
}

/// Writing a raster and reading the container back gives the bounds and
/// the raster that were written.
pub proof fn lemma_round_trip(bounds: ImageBounds, raster: Seq<u8>)
    requires
        raster.len() == bounds.area(),
    ensures
        decode_spec(container(bounds, raster)) == Ok::<_, ContainerError>((bounds, raster)),
{
    let bytes = container(bounds, raster);
    assert(header(bounds) =~= bytes.subrange(0, header(bounds).len() as int));
    assert(has_header(bytes, bounds));
    lemma_header_layout(bytes, bounds);
    let found = choose|found: ImageBounds| has_header(bytes, found);
    lemma_header_unique(bytes, bounds, found);
    assert(bytes.skip(header(bounds).len() as int) =~= raster);
}

/// Bytes that read as a container are the container of what was read: no
/// two byte strings read as the same image.
pub proof fn lemma_decoded_is_container(bytes: Seq<u8>, bounds: ImageBounds, raster: Seq<u8>)
    requires
        decode_spec(bytes) == Ok::<_, ContainerError>((bounds, raster)),
    ensures
        raster.len() == bounds.area(),
        bytes == container(bounds, raster),
{
    let found = choose|found: ImageBounds| has_header(bytes, found);
    assert(has_header(bytes, found));
    assert(header(found) =~= bytes.subrange(0, header(found).len() as int));
    assert(bytes =~= header(found) + bytes.skip(header(found).len() as int));
}

/// Appends a number in decimal.
fn push_decimal(out: &mut Vec<u8>, value: usize)
    ensures
        final(out)@ == old(out)@ + decimal(value as nat),
    decreases value,
{
    if value >= 10 {
        push_decimal(out, value / 10);
    }
    let low = 0x30 + (value % 10) as u8;
    out.push(low);
    proof {
        assert(low == digit((value % 10) as nat));
        if value >= 10 {
            assert(old(out)@ + decimal((value / 10) as nat).push(low) =~= (old(out)@ + decimal(
                (value / 10) as nat,
            )).push(low));
        } else {
            assert(old(out)@ + decimal(value as nat) =~= old(out)@.push(low));
        }
    }
}

/// The container of a raster, or `WrongLength` where the raster does not
/// hold one byte per pixel of the bounds.
pub fn encode(raster: &[u8], bounds: ImageBounds) -> (result: Result<Vec<u8>, ContainerError>)
    ensures
        raster@.len() == bounds.area() ==> (result matches Ok(bytes) && bytes@ == container(
            bounds,
            raster@,
        )),
        raster@.len() != bounds.area() ==> result matches Err(ContainerError::WrongLength),
{
    let count = raster.len();
    match bounds.pixel_count() {
        Some(area) => {
            if area != count {
                return Err(ContainerError::WrongLength);
            }
        },
        None => {
            return Err(ContainerError::WrongLength);
        },
    }
    let mut bytes: Vec<u8> = Vec::new();
    bytes.push(0x50);
    bytes.push(0x35);
    bytes.push(0x0a);
    assert(bytes@ =~= magic());
    push_decimal(&mut bytes, bounds.width);
    bytes.push(0x20);
    push_decimal(&mut bytes, bounds.height);
    bytes.push(0x0a);
    bytes.push(0x32);
    bytes.push(0x35);
    bytes.push(0x35);
    bytes.push(0x0a);
    assert(bytes@ =~= header(bounds));
    let mut index: usize = 0;
    while index < count
        invariant
            count == raster@.len(),
            index <= count,
            bytes@ == header(bounds) + raster@.take(index as int),
        decreases count - index,
    {
        bytes.push(raster[index]);
        proof {
            assert(raster@.take(index + 1) =~= raster@.take(index as int).push(raster@[index as int]));
            assert(header(bounds) + raster@.take(index as int).push(raster@[index as int])
                =~= (header(bounds) + raster@.take(index as int)).push(raster@[index as int]));
        }
        index += 1;
    }
    proof {
        assert(raster@.take(count as int) =~= raster@);
    }
    Ok(bytes)
}

/// Reads the numeral that the bytes hold at `start`: its value and where
/// it ends. `None` where they hold none that fits in `usize`.
fn scan_number(bytes: &[u8], start: usize) -> (result: Option<(usize, usize)>)
    requires
        start <= bytes@.len(),
    ensures
        result matches Some((value, end)) ==> numeral_at(
            bytes@,
            start as int,
            value as nat,
            end as int,
        ),
        result is None ==> forall|value: usize, end: int|
            !#[trigger] numeral_at(bytes@, start as int, value as nat, end),
{
    let len = bytes.len();
    let mut pos: usize = start;
    let mut value: usize = 0;
    while pos < len && 0x30 <= bytes[pos] && bytes[pos] <= 0x39
        invariant
            len == bytes@.len(),
            start <= pos <= len,
            pos == start ==> value == 0,
            pos > start ==> bytes@.subrange(start as int, pos as int) == decimal(value as nat),
            forall|i: int| start <= i < pos ==> is_digit(#[trigger] bytes@[i]),
        decreases len - pos,
    {
        let low = (bytes[pos] - 0x30) as usize;
        let ghost run = bytes@.subrange(start as int, pos + 1);
        proof {
            assert forall|i: int| 0 <= i < run.len() implies is_digit(#[trigger] run[i]) by {
                assert(run[i] == bytes@[start + i]);
            }
        }
        if pos > start && value == 0 {
            proof {
                assert forall|other: usize, end: int|
                    !#[trigger] numeral_at(bytes@, start as int, other as nat, end) by {
                    if numeral_at(bytes@, start as int, other as nat, end) {
                        lemma_decimal(other as nat);
                        lemma_decimal(0);
                        let digits = bytes@.subrange(start as int, end);
                        if end <= pos {
                            assert(is_digit(bytes@[end]));
                        }
                        assert(digits[0] == bytes@[start as int]);
                        assert(bytes@.subrange(start as int, pos as int)[0] == bytes@[
                            start as int
                        ]);
                    }
                }
            }
            return None;
        }
        let next = match value.checked_mul(10) {
            Some(tens) => tens.checked_add(low),
            None => None,
        };
        match next {
            Some(sum) => {
                proof {
                    if pos > start {
                        lemma_decimal(value as nat);
                        assert(run =~= decimal(value as nat).push(digit(low as nat)));
                        assert(sum / 10 == value && sum % 10 == low);
                    } else {
                        assert(run =~= seq![digit(low as nat)]);
                    }
                }
                value = sum;
            },
            None => {
                proof {
                    assert forall|other: usize, end: int|
                        !#[trigger] numeral_at(bytes@, start as int, other as nat, end) by {
                        if numeral_at(bytes@, start as int, other as nat, end) {
                            lemma_decimal(other as nat);
                            let digits = bytes@.subrange(start as int, end);
                            if end <= pos {
                                assert(is_digit(bytes@[end]));
                            }
                            assert(digits.take(pos + 1 - start) =~= run);
                            lemma_decimal_value_prefix(digits, pos + 1 - start);
                            assert(run.drop_last() =~= bytes@.subrange(start as int, pos as int));
                            if pos > start {
                                lemma_decimal(value as nat);
                            } else {
                                assert(decimal_value(run.drop_last()) == 0);
                            }
                            assert(decimal_value(run) == 10 * value + low);
                        }
                    }
                }
                return None;
            },
        }
        pos += 1;
    }
    if pos == start {
        proof {
            assert forall|other: usize, end: int|
                !#[trigger] numeral_at(bytes@, start as int, other as nat, end) by {
                if numeral_at(bytes@, start as int, other as nat, end) {
                    lemma_decimal(other as nat);
                    assert(bytes@.subrange(start as int, end)[0] == bytes@[start as int]);
                }
            }
        }
        return None;
    }
    Some((value, pos))
}

/// The bytes hold `expected` from `start` on.
fn holds_at(bytes: &[u8], start: usize, expected: &[u8]) -> (result: bool)
    requires
        start <= bytes@.len(),
    ensures
        result <==> start + expected@.len() <= bytes@.len() && bytes@.subrange(
            start as int,
            start + expected@.len(),
        ) == expected@,
{
    let len = bytes.len();
    let count = expected.len();
    if len - start < count {
        return false;
    }
    let mut index: usize = 0;
    while index < count
        invariant
            len == bytes@.len(),
            count == expected@.len(),
            start + count <= len,
            index <= count,
            forall|i: int| 0 <= i < index ==> bytes@[start + i] == expected@[i],
        decreases count - index,
    {
        if bytes[start + index] != expected[index] {
            proof {
                assert(bytes@.subrange(start as int, start + count)[index as int] == bytes@[start
                    + index]);
            }
            return false;
        }
        index += 1;
    }
    proof {
        assert(bytes@.subrange(start as int, start + count) =~= expected@);
    }
    true
}

/// Reads a container: the bounds and the raster that it holds, or why the
/// bytes are none.
pub fn decode(bytes: &[u8]) -> (result: Result<(ImageBounds, Vec<u8>), ContainerError>)
    ensures
        match result {
            Ok((bounds, raster)) => decode_spec(bytes@) == Ok::<_, ContainerError>(
                (bounds, raster@),
            ),
            Err(error) => decode_spec(bytes@) == Err::<(ImageBounds, Seq<u8>), _>(error),
        },
{
    let len = bytes.len();
    let magic_bytes: [u8; 3] = [0x50, 0x35, 0x0a];
    let depth_bytes: [u8; 5] = [0x0a, 0x32, 0x35, 0x35, 0x0a];
    proof {
        assert(magic_bytes@ =~= magic());
        assert(depth_bytes@ =~= depth_line());
    }
    if !holds_at(bytes, 0, magic_bytes.as_slice()) {
        proof {
            if magic().is_prefix_of(bytes@) {
                assert(bytes@.subrange(0, 3) =~= magic());
            }
        }
        return Err(ContainerError::BadMagic);
    }
    proof {
        assert(magic() =~= bytes@.subrange(0, 3));
        assert(magic().is_prefix_of(bytes@));
    }
    let (width, width_stop) = match scan_number(bytes, 3) {
        Some(found) => found,
        None => {
            proof {
                assert forall|bounds: ImageBounds| !has_header(bytes@, bounds) by {
                    if has_header(bytes@, bounds) {
                        lemma_header_layout(bytes@, bounds);
                        assert(numeral_at(bytes@, 3, bounds.width as nat, width_end(bounds)));
                    }
                }
            }
            return Err(ContainerError::BadHeader);
        },
    };
    if width_stop >= len || bytes[width_stop] != 0x20 {
        proof {
            assert forall|bounds: ImageBounds| !has_header(bytes@, bounds) by {
                if has_header(bytes@, bounds) {
                    lemma_header_layout(bytes@, bounds);
                    lemma_numeral_unique(
                        bytes@,
                        3,
                        width as nat,
                        width_stop as int,
                        bounds.width as nat,
                        width_end(bounds),
                    );
                }
            }
        }
        return Err(ContainerError::BadHeader);
    }
    let (height, height_stop) = match scan_number(bytes, width_stop + 1) {
        Some(found) => found,
        None => {
            proof {
                assert forall|bounds: ImageBounds| !has_header(bytes@, bounds) by {
                    if has_header(bytes@, bounds) {
                        lemma_header_layout(bytes@, bounds);
                        lemma_numeral_unique(
                            bytes@,
                            3,
                            width as nat,
                            width_stop as int,
                            bounds.width as nat,
                            width_end(bounds),
                        );
                        assert(numeral_at(
                            bytes@,
                            width_stop + 1,
                            bounds.height as nat,
                            height_end(bounds),
                        ));
                    }
                }
            }
            return Err(ContainerError::BadHeader);
        },
    };
    if !holds_at(bytes, height_stop, depth_bytes.as_slice()) {
        proof {
            assert forall|bounds: ImageBounds| !has_header(bytes@, bounds) by {
                if has_header(bytes@, bounds) {
                    lemma_header_layout(bytes@, bounds);
                    lemma_numeral_unique(
                        bytes@,
                        3,
                        width as nat,
                        width_stop as int,
                        bounds.width as nat,
                        width_end(bounds),
                    );
                    lemma_numeral_unique(
                        bytes@,
                        width_stop + 1,
                        height as nat,
                        height_stop as int,
                        bounds.height as nat,
                        height_end(bounds),
                    );
                }
            }
        }
        return Err(ContainerError::BadHeader);
    }
    let bounds = ImageBounds { width, height };
    let start = height_stop + 5;
    proof {
        lemma_header_found(bytes@, bounds, width_stop as int, height_stop as int);
        let found = choose|found: ImageBounds| has_header(bytes@, found);
        lemma_header_unique(bytes@, bounds, found);
    }
    match bounds.pixel_count() {
        Some(area) => {
            if len - start != area {
                return Err(ContainerError::WrongLength);
            }
        },
        None => {
            return Err(ContainerError::WrongLength);
        },
    }
    let raster = vstd::slice::slice_to_vec(vstd::slice::slice_subrange(bytes, start, len));
    proof {
        assert(raster@ =~= bytes@.skip(start as int));
    }
    Ok((bounds, raster))
}

} // verus!
