//! Shrinking a clip's frames for a GIF: the size the GIF is made at, and the
//! box filter that scales each plane of a decoded frame to that size.

use vstd::prelude::*;

verus! {

/// The widest a GIF is made.
pub const MAX_WIDTH: u32 = 400;

pub open spec fn at_least_one(x: int) -> int {
    if x >= 1 {
        x
    } else {
        1
    }
}

/// The size a `width` by `height` clip becomes as a GIF: its own when it is
/// no wider than `MAX_WIDTH`, else `MAX_WIDTH` wide and the height scaled
/// by the same factor, rounded down; no side below one.
pub open spec fn fitted(width: int, height: int) -> (int, int) {
    if width <= MAX_WIDTH {
        (at_least_one(width), at_least_one(height))
    } else {
        (MAX_WIDTH as int, at_least_one(height * MAX_WIDTH / width))
    }
}

/// The size a `width` by `height` clip is turned into a GIF at.
pub fn fit(width: u32, height: u32) -> (r: (u32, u32))
    ensures
        (r.0 as int, r.1 as int) == fitted(width as int, height as int),
{
    if width <= MAX_WIDTH {
        let w = if width >= 1 {
            width
        } else {
            1
        };
        let h = if height >= 1 {
            height
        } else {
            1
        };
        return (w, h);
    }
    assert(height as u64 * MAX_WIDTH as u64 <= 400 * u32::MAX) by (nonlinear_arith)
        requires
            height <= u32::MAX,
            MAX_WIDTH == 400,
    ;
    let product = height as u64 * MAX_WIDTH as u64;
    let scaled = product / width as u64;
    assert(scaled <= height) by (nonlinear_arith)
        requires
            product == height * 400,
            scaled == product / width as u64,
            width > 400,
    ;
    let scaled = scaled as u32;
    (MAX_WIDTH, if scaled >= 1 {
        scaled
    } else {
        1
    })
}

/// A GIF is never wider than the limit and never loses a side; a clip no
/// wider than the limit keeps its size; a wider one keeps its shape to
/// within a row: its new height is the largest that does not make it
/// taller for its width than the clip.
pub proof fn law_fit_keeps_the_shape(width: u32, height: u32)
    ensures
        ({
            let (w, h) = fitted(width as int, height as int);
            &&& 1 <= w <= MAX_WIDTH
            &&& h >= 1
            &&& 1 <= width <= MAX_WIDTH && height >= 1 ==> w == width && h == height
            &&& width > MAX_WIDTH && height * MAX_WIDTH >= width ==> h * width <= height * w < (h
                + 1) * width
        }),
{
    if width > MAX_WIDTH && height * MAX_WIDTH >= width {
        let h = height * 400 / width as int;
        assert(h * width <= height * 400 < (h + 1) * width) by (nonlinear_arith)
            requires
                h == height * 400 / width as int,
                width > 400,
        ;
        assert(h >= 1) by (nonlinear_arith)
            requires
                h == height * 400 / width as int,
                height * 400 >= width,
                width > 400,
        ;
    }
}

/// `a` divided by `b`, rounded up.
pub open spec fn ceil_div(a: int, b: int) -> int {
    a / b + if a % b != 0 {
        1int
    } else {
        0int
    }
}

/// The first source line that output line `i` of `size` averages.
pub open spec fn span_start(i: int, source: int, size: int) -> int {
    i * source / size
}

/// One past the last source line that output line `i` of `size` averages:
/// the source lines it overlaps, and at least one.
pub open spec fn span_end(i: int, source: int, size: int) -> int {
    let end = ceil_div((i + 1) * source, size);
    if end >= span_start(i, source, size) + 1 {
        end
    } else {
        span_start(i, source, size) + 1
    }
}

/// The sum of the bytes `base + left .. base + right` of `data`.
pub open spec fn row_sum(data: Seq<u8>, base: int, left: int, right: int) -> int
    decreases right - left,
{
    if right <= left {
        0
    } else {
        row_sum(data, base, left, right - 1) + data[base + right - 1]
    }
}

/// The sum of the box of rows `top..bottom` and columns `left..right` of a
/// plane whose rows start `stride` bytes apart.
pub open spec fn box_sum(data: Seq<u8>, stride: int, top: int, bottom: int, left: int, right: int) -> int
    decreases bottom - top,
{
    if bottom <= top {
        0
    } else {
        box_sum(data, stride, top, bottom - 1, left, right) + row_sum(
            data,
            (bottom - 1) * stride,
            left,
            right,
        )
    }
}

/// Output pixel (`x`, `y`) of a `source_width` by `source_height` plane
/// scaled to `width` by `height`: the average, rounded down, of the source
/// pixels its box covers.
pub open spec fn box_average(
    data: Seq<u8>,
    stride: int,
    source_width: int,
    source_height: int,
    width: int,
    height: int,
    x: int,
    y: int,
) -> int {
    let top = span_start(y, source_height, height);
    let bottom = span_end(y, source_height, height);
    let left = span_start(x, source_width, width);
    let right = span_end(x, source_width, width);
    box_sum(data, stride, top, bottom, left, right) / ((bottom - top) * (right - left))
}

/// Whether `data` holds a `source_width` by `source_height` plane with
/// rows `stride` bytes apart.
pub open spec fn holds_plane(data: Seq<u8>, stride: int, source_width: int, source_height: int) -> bool {
    &&& source_width > 0
    &&& source_height > 0
    &&& (source_height - 1) * stride + source_width <= data.len()
}

/// Why a plane could not be scaled.
#[derive(Debug, Clone, Copy, PartialEq, Eq, Structural)]
pub enum ScaleError {
    /// The bytes handed over do not hold a picture of the size given.
    MissingPlane,
    /// A row is said to be shorter than the picture is wide.
    NarrowStride,
}

proof fn lemma_span(i: int, source: int, size: int)
    requires
        0 <= i < size,
        source > 0,
    ensures
        0 <= span_start(i, source, size) < span_end(i, source, size) <= source,
{
    let a = i * source;
    let b = (i + 1) * source;
    assert(0 <= a / size < source) by (nonlinear_arith)
        requires
            a == i * source,
            0 <= i < size,
            source > 0,
    ;
    assert(ceil_div(b, size) <= source) by (nonlinear_arith)
        requires
            b == (i + 1) * source,
            0 <= i < size,
            source > 0,
    ;
}

proof fn lemma_row_sum_bound(data: Seq<u8>, base: int, left: int, right: int)
    requires
        left <= right,
    ensures
        0 <= row_sum(data, base, left, right) <= 255 * (right - left),
    decreases right - left,
{
    if right > left {
        lemma_row_sum_bound(data, base, left, right - 1);
    }
}

proof fn lemma_box_sum_bound(data: Seq<u8>, stride: int, top: int, bottom: int, left: int, right: int)
    requires
        top <= bottom,
        left <= right,
    ensures
        0 <= box_sum(data, stride, top, bottom, left, right) <= 255 * ((bottom - top) * (right
            - left)),
    decreases bottom - top,
{
    if bottom > top {
        lemma_box_sum_bound(data, stride, top, bottom - 1, left, right);
        lemma_row_sum_bound(data, (bottom - 1) * stride, left, right);
        assert(255 * ((bottom - 1 - top) * (right - left)) + 255 * (right - left) == 255 * ((
        bottom - top) * (right - left))) by (nonlinear_arith);
    }
}

/// A row index times the stride, for a row inside the plane, stays inside
/// the plane.
proof fn lemma_row_inside(row: int, column: int, stride: int, source_width: int, source_height: int, len: int)
    requires
        0 <= row < source_height,
        0 <= column < source_width,
        stride >= 0,
        (source_height - 1) * stride + source_width <= len,
    ensures
        0 <= row * stride,
        row * stride + column < len,
{
    assert(0 <= row * stride <= (source_height - 1) * stride) by (nonlinear_arith)
        requires
            0 <= row < source_height,
            stride >= 0,
    ;
}

fn row_total(data: &[u8], base: usize, left: usize, right: usize) -> (total: u128)
    requires
        left <= right,
        base + right <= data@.len(),
    ensures
        total == row_sum(data@, base as int, left as int, right as int),
{
    let len = data.len();
    let mut total: u128 = 0;
    let mut column = left;
    while column < right
        invariant
            left <= column <= right,
            base + right <= data@.len(),
            data@.len() == len,
            total == row_sum(data@, base as int, left as int, column as int),
        decreases right - column,
    {
        proof {
            lemma_row_sum_bound(data@, base as int, left as int, column as int);
        }
        assert(column as int - left <= usize::MAX);
        total = total + data[base + column] as u128;
        column = column + 1;
    }
    total
}

fn box_total(
    data: &[u8],
    stride: usize,
    source_width: usize,
    source_height: usize,
    top: usize,
    bottom: usize,
    left: usize,
    right: usize,
) -> (total: u128)
    requires
        holds_plane(data@, stride as int, source_width as int, source_height as int),
        stride >= source_width,
        top <= bottom <= source_height,
        left <= right <= source_width,
        source_height * source_width <= data@.len(),
    ensures
        total == box_sum(data@, stride as int, top as int, bottom as int, left as int, right as int),
{
    let len = data.len();
    let mut total: u128 = 0;
    let mut row = top;
    while row < bottom
        invariant
            data@.len() == len,
            source_height * source_width <= data@.len(),
            holds_plane(data@, stride as int, source_width as int, source_height as int),
            stride >= source_width,
            top <= row <= bottom <= source_height,
            left <= right <= source_width,
            total == box_sum(data@, stride as int, top as int, row as int, left as int, right as int),
        decreases bottom - row,
    {
        proof {
            lemma_row_inside(
                row as int,
                0,
                stride as int,
                source_width as int,
                source_height as int,
                data@.len() as int,
            );
            lemma_row_inside(
                row as int,
                source_width - 1,
                stride as int,
                source_width as int,
                source_height as int,
                data@.len() as int,
            );
            lemma_box_sum_bound(data@, stride as int, top as int, row as int, left as int, right as int);
            lemma_row_sum_bound(data@, row * stride, left as int, right as int);
            assert((row - top) * (right - left) <= source_height * source_width) by (nonlinear_arith)
                requires
                    top <= row <= source_height,
                    left <= right <= source_width,
            ;
            assert(right - left <= source_width);
        }
        let base = row * stride;
        let line = row_total(data, base, left, right);
        total = total + line;
        row = row + 1;
    }
    total
}

/// Scales a `source_width` by `source_height` plane, whose rows start
/// `stride` bytes apart in `data`, to `width` by `height` with a box
/// filter: each output pixel is the average, rounded down, of the source
/// pixels it covers (at least one), so nothing between the sampled pixels
/// is dropped and a plane can grow as well as shrink. The output, row after
/// row, replaces what `out` held. Fails, leaving `out` as it was, when
/// `data` does not hold such a plane or a row is shorter than the plane is
/// wide.
pub fn box_scale(
    data: &[u8],
    stride: usize,
    source_width: usize,
    source_height: usize,
    width: usize,
    height: usize,
    out: &mut Vec<u8>,
) -> (r: Result<(), ScaleError>)
    requires
        width * height <= usize::MAX,
        width * source_width <= usize::MAX,
        height * source_height <= usize::MAX,
    ensures
        match r {
            Ok(()) => {
                &&& holds_plane(data@, stride as int, source_width as int, source_height as int)
                &&& stride >= source_width
                &&& final(out)@.len() == width * height
                &&& forall|i: int|
                    0 <= i < width * height ==> final(out)@[i] as int == box_average(
                        data@,
                        stride as int,
                        source_width as int,
                        source_height as int,
                        width as int,
                        height as int,
                        i % width as int,
                        i / width as int,
                    )
            },
            Err(e) => {
                &&& *final(out) == *old(out)
                &&& e == (if !holds_plane(
                    data@,
                    stride as int,
                    source_width as int,
                    source_height as int,
                ) {
                    ScaleError::MissingPlane
                } else {
                    ScaleError::NarrowStride
                })
                &&& !holds_plane(data@, stride as int, source_width as int, source_height as int)
                    || stride < source_width
            },
        },
{
    let len = data.len();
    if source_width == 0 || source_height == 0 {
        return Err(ScaleError::MissingPlane);
    }
    let needed = match (source_height - 1).checked_mul(stride) {
        Some(rows) => rows.checked_add(source_width),
        None => None,
    };
    match needed {
        Some(n) => {
            if n > len {
                return Err(ScaleError::MissingPlane);
            }
        },
        None => {
            assert((source_height - 1) * stride + source_width > usize::MAX);
            return Err(ScaleError::MissingPlane);
        },
    }
    if stride < source_width {
        return Err(ScaleError::NarrowStride);
    }
    out.clear();
    out.reserve(width * height);
    proof {
        assert(source_height * source_width <= data@.len()) by (nonlinear_arith)
            requires
                (source_height - 1) * stride + source_width <= data@.len(),
                stride >= source_width,
                source_height >= 1,
        ;
    }
    let mut y: usize = 0;
    while y < height
        invariant
            data@.len() == len,
            holds_plane(data@, stride as int, source_width as int, source_height as int),
            stride >= source_width,
            source_height * source_width <= data@.len(),
            width * height <= usize::MAX,
            width * source_width <= usize::MAX,
            height * source_height <= usize::MAX,
            0 <= y <= height,
            out@.len() == y * width,
            forall|i: int|
                0 <= i < y * width ==> out@[i] as int == box_average(
                    data@,
                    stride as int,
                    source_width as int,
                    source_height as int,
                    width as int,
                    height as int,
                    i % width as int,
                    i / width as int,
                ),
        decreases height - y,
    {
        proof {
            lemma_span(y as int, source_height as int, height as int);
            assert((y + 1) * source_height <= height * source_height) by (nonlinear_arith)
                requires
                    y < height,
            ;
            assert(y * source_height <= (y + 1) * source_height) by (nonlinear_arith);
        }
        let top = y * source_height / height;
        let reach = (y + 1) * source_height;
        let end = reach / height + if reach % height != 0 {
            1
        } else {
            0
        };
        let bottom = if end >= top + 1 {
            end
        } else {
            top + 1
        };
        let mut x: usize = 0;
        while x < width
            invariant
                data@.len() == len,
                holds_plane(data@, stride as int, source_width as int, source_height as int),
                stride >= source_width,
                source_height * source_width <= data@.len(),
                width * height <= usize::MAX,
                width * source_width <= usize::MAX,
                height * source_height <= usize::MAX,
                0 <= y < height,
                top == span_start(y as int, source_height as int, height as int),
                bottom == span_end(y as int, source_height as int, height as int),
                0 <= top < bottom <= source_height,
                0 <= x <= width,
                out@.len() == y * width + x,
                forall|i: int|
                    0 <= i < y * width + x ==> out@[i] as int == box_average(
                        data@,
                        stride as int,
                        source_width as int,
                        source_height as int,
                        width as int,
                        height as int,
                        i % width as int,
                        i / width as int,
                    ),
            decreases width - x,
        {
            proof {
                lemma_span(x as int, source_width as int, width as int);
                assert((x + 1) * source_width <= width * source_width) by (nonlinear_arith)
                    requires
                        x < width,
                ;
                assert(x * source_width <= (x + 1) * source_width) by (nonlinear_arith);
            }
            let left = x * source_width / width;
            let across = (x + 1) * source_width;
            let end = across / width + if across % width != 0 {
                1
            } else {
                0
            };
            let right = if end >= left + 1 {
                end
            } else {
                left + 1
            };
            let sum = box_total(data, stride, source_width, source_height, top, bottom, left, right);
            proof {
                lemma_box_sum_bound(
                    data@,
                    stride as int,
                    top as int,
                    bottom as int,
                    left as int,
                    right as int,
                );
                assert(0 < (bottom - top) * (right - left) <= source_height * source_width)
                    by (nonlinear_arith)
                    requires
                        0 <= top < bottom <= source_height,
                        0 <= left < right <= source_width,
                ;
            }
            let count = ((bottom - top) * (right - left)) as u128;
            proof {
                assert(sum / count <= 255) by (nonlinear_arith)
                    requires
                        0 <= sum <= 255 * count,
                        count > 0,
                ;
            }
            let average = (sum / count) as u8;
            proof {
                let i = y * width + x;
                assert(i % width as int == x && i / width as int == y) by (nonlinear_arith)
                    requires
                        i == y * width + x,
                        0 <= x < width,
                ;
            }
            out.push(average);
            x = x + 1;
        }
        proof {
            assert((y + 1) * width == y * width + width) by (nonlinear_arith);
        }
        y = y + 1;
    }
    assert(height * width == width * height) by (nonlinear_arith);
    Ok(())
}

/// The pixel in row `row`, column `column` of a plane whose rows start
/// `stride` bytes apart.
pub open spec fn pixel(data: Seq<u8>, stride: int, row: int, column: int) -> u8 {
    data[row * stride + column]
}

proof fn lemma_flat_row(data: Seq<u8>, stride: int, row: int, left: int, right: int, v: u8)
    requires
        left <= right,
        forall|c: int| left <= c < right ==> #[trigger] pixel(data, stride, row, c) == v,
    ensures
        row_sum(data, row * stride, left, right) == (right - left) * v,
    decreases right - left,
{
    if right > left {
        lemma_flat_row(data, stride, row, left, right - 1, v);
        assert(pixel(data, stride, row, right - 1) == v);
        assert(row_sum(data, row * stride, left, right) == row_sum(
            data,
            row * stride,
            left,
            right - 1,
        ) + data[row * stride + right - 1]);
        assert((right - 1 - left) * v + v == (right - left) * v) by (nonlinear_arith);
    } else {
        assert((right - left) * v == 0) by (nonlinear_arith)
            requires
                right == left,
        ;
    }
}

proof fn lemma_flat_box(
    data: Seq<u8>,
    stride: int,
    top: int,
    bottom: int,
    left: int,
    right: int,
    v: u8,
)
    requires
        top <= bottom,
        left <= right,
        forall|r: int, c: int|
            top <= r < bottom && left <= c < right ==> #[trigger] pixel(data, stride, r, c) == v,
    ensures
        box_sum(data, stride, top, bottom, left, right) == (bottom - top) * (right - left) * v,
    decreases bottom - top,
{
    if bottom > top {
        lemma_flat_box(data, stride, top, bottom - 1, left, right, v);
        lemma_flat_row(data, stride, bottom - 1, left, right, v);
        assert(box_sum(data, stride, top, bottom, left, right) == box_sum(
            data,
            stride,
            top,
            bottom - 1,
            left,
            right,
        ) + row_sum(data, (bottom - 1) * stride, left, right));
        assert((bottom - 1 - top) * (right - left) * v + (right - left) * v == (bottom - top) * (
        right - left) * v) by (nonlinear_arith);
    } else {
        assert((bottom - top) * (right - left) * v == 0) by (nonlinear_arith)
            requires
                bottom == top,
        ;
    }
}

proof fn lemma_bounded_row(data: Seq<u8>, stride: int, row: int, left: int, right: int, lo: int, hi: int)
    requires
        left <= right,
        forall|c: int| left <= c < right ==> lo <= #[trigger] pixel(data, stride, row, c) <= hi,
    ensures
        (right - left) * lo <= row_sum(data, row * stride, left, right) <= (right - left) * hi,
    decreases right - left,
{
    if right > left {
        lemma_bounded_row(data, stride, row, left, right - 1, lo, hi);
        assert(lo <= pixel(data, stride, row, right - 1) <= hi);
        assert(row_sum(data, row * stride, left, right) == row_sum(
            data,
            row * stride,
            left,
            right - 1,
        ) + data[row * stride + right - 1]);
        assert((right - 1 - left) * lo + lo == (right - left) * lo) by (nonlinear_arith);
        assert((right - 1 - left) * hi + hi == (right - left) * hi) by (nonlinear_arith);
    } else {
        assert((right - left) * lo == 0 && (right - left) * hi == 0) by (nonlinear_arith)
            requires
                right == left,
        ;
    }
}

proof fn lemma_bounded_box(
    data: Seq<u8>,
    stride: int,
    top: int,
    bottom: int,
    left: int,
    right: int,
    lo: int,
    hi: int,
)
    requires
        top <= bottom,
        left <= right,
        forall|r: int, c: int|
            top <= r < bottom && left <= c < right ==> lo <= #[trigger] pixel(data, stride, r, c) <= hi,
    ensures
        (bottom - top) * (right - left) * lo <= box_sum(data, stride, top, bottom, left, right) <= (
        bottom - top) * (right - left) * hi,
    decreases bottom - top,
{
    if bottom > top {
        lemma_bounded_box(data, stride, top, bottom - 1, left, right, lo, hi);
        assert forall|c: int| left <= c < right implies lo <= #[trigger] pixel(
            data,
            stride,
            bottom - 1,
            c,
        ) <= hi by {}
        lemma_bounded_row(data, stride, bottom - 1, left, right, lo, hi);
        assert(box_sum(data, stride, top, bottom, left, right) == box_sum(
            data,
            stride,
            top,
            bottom - 1,
            left,
            right,
        ) + row_sum(data, (bottom - 1) * stride, left, right));
        assert((bottom - 1 - top) * (right - left) * lo + (right - left) * lo == (bottom - top) * (
        right - left) * lo) by (nonlinear_arith);
        assert((bottom - 1 - top) * (right - left) * hi + (right - left) * hi == (bottom - top) * (
        right - left) * hi) by (nonlinear_arith);
    } else {
        assert((bottom - top) * (right - left) * lo == 0 && (bottom - top) * (right - left) * hi
            == 0) by (nonlinear_arith)
            requires
                bottom == top,
        ;
    }
}

/// Each scaled pixel lies between the least and the greatest source pixel
/// of its box, and its box lies inside the source picture: it covers at
/// least one pixel and never reaches past the last row or column (so the
/// padding between a row's end and the stride is never read).
pub proof fn law_a_scaled_pixel_stays_within_its_box(
    data: Seq<u8>,
    stride: int,
    source_width: int,
    source_height: int,
    width: int,
    height: int,
    x: int,
    y: int,
    lo: u8,
    hi: u8,
)
    requires
        source_width > 0,
        source_height > 0,
        0 <= x < width,
        0 <= y < height,
        forall|r: int, c: int|
            span_start(y, source_height, height) <= r < span_end(y, source_height, height)
                && span_start(x, source_width, width) <= c < span_end(x, source_width, width)
                ==> lo <= #[trigger] pixel(data, stride, r, c) <= hi,
    ensures
        0 <= span_start(y, source_height, height) < span_end(y, source_height, height)
            <= source_height,
        0 <= span_start(x, source_width, width) < span_end(x, source_width, width) <= source_width,
        lo <= box_average(data, stride, source_width, source_height, width, height, x, y) <= hi,
{
    lemma_span(y, source_height, height);
    lemma_span(x, source_width, width);
    let top = span_start(y, source_height, height);
    let bottom = span_end(y, source_height, height);
    let left = span_start(x, source_width, width);
    let right = span_end(x, source_width, width);
    lemma_bounded_box(data, stride, top, bottom, left, right, lo as int, hi as int);
    let count = (bottom - top) * (right - left);
    let sum = box_sum(data, stride, top, bottom, left, right);
    assert(count > 0) by (nonlinear_arith)
        requires
            count == (bottom - top) * (right - left),
            top < bottom,
            left < right,
    ;
    assert((bottom - top) * (right - left) * lo == count * lo && (bottom - top) * (right - left)
        * hi == count * hi) by (nonlinear_arith)
        requires
            count == (bottom - top) * (right - left),
    ;
    assert(lo <= sum / count <= hi) by (nonlinear_arith)
        requires
            count * lo <= sum <= count * hi,
            count > 0,
    ;
}

/// A plane of a single value scales to that value everywhere, whatever
/// size it is scaled to.
pub proof fn law_a_flat_plane_scales_to_itself(
    data: Seq<u8>,
    stride: int,
    source_width: int,
    source_height: int,
    width: int,
    height: int,
    v: u8,
)
    requires
        holds_plane(data, stride, source_width, source_height),
        stride >= source_width,
        width > 0,
        height > 0,
        forall|r: int, c: int|
            0 <= r < source_height && 0 <= c < source_width ==> #[trigger] pixel(data, stride, r, c)
                == v,
    ensures
        forall|x: int, y: int|
            0 <= x < width && 0 <= y < height ==> #[trigger] box_average(
                data,
                stride,
                source_width,
                source_height,
                width,
                height,
                x,
                y,
            ) == v,
{
    assert forall|x: int, y: int| 0 <= x < width && 0 <= y < height implies #[trigger] box_average(
        data,
        stride,
        source_width,
        source_height,
        width,
        height,
        x,
        y,
    ) == v by {
        lemma_span(y, source_height, height);
        lemma_span(x, source_width, width);
        let top = span_start(y, source_height, height);
        let bottom = span_end(y, source_height, height);
        let left = span_start(x, source_width, width);
        let right = span_end(x, source_width, width);
        lemma_flat_box(data, stride, top, bottom, left, right, v);
        let count = (bottom - top) * (right - left);
        assert(count > 0) by (nonlinear_arith)
            requires
                count == (bottom - top) * (right - left),
                top < bottom,
                left < right,
        ;
        assert((bottom - top) * (right - left) * v == count * v) by (nonlinear_arith)
            requires
                count == (bottom - top) * (right - left),
        ;
        assert(count * v / count == v) by (nonlinear_arith)
            requires
                count > 0,
        ;
    }
}

/// What to do with the next frame the decoder hands over.
#[derive(Debug, Clone, Copy, PartialEq, Eq, Structural)]
pub enum FrameChoice {
    /// Write it into the GIF.
    Write,
    /// Pass over it.
    Skip,
    /// The GIF is full: stop decoding.
    Stop,
}

/// Which decoded frames go into a GIF: every `keep_every`-th, from the
/// first, until `budget` frames are written.
#[derive(Debug)]
pub struct Pacing {
    keep_every: u32,
    budget: u32,
    seen: u64,
    written: u32,
    truncated: bool,
}

impl Pacing {
    /// Counts stay in step: no more frames are written than the budget, and
    /// no more are seen than the written ones account for.
    pub closed spec fn wf(&self) -> bool {
        &&& self.keep_every > 0
        &&& self.written <= self.budget
        &&& self.seen <= self.written * self.keep_every
    }

    pub closed spec fn spec_keep_every(&self) -> u32 {
        self.keep_every
    }

    pub closed spec fn spec_budget(&self) -> u32 {
        self.budget
    }

    pub closed spec fn spec_seen(&self) -> u64 {
        self.seen
    }

    pub closed spec fn spec_written(&self) -> u32 {
        self.written
    }

    pub closed spec fn spec_truncated(&self) -> bool {
        self.truncated
    }

    /// Pacing that keeps every `keep_every`-th frame (every frame when it is
    /// zero) and stops after `budget` of them.
    pub fn new(keep_every: u32, budget: u32) -> (p: Pacing)
        ensures
            p.wf(),
            p.spec_keep_every() == (if keep_every == 0 {
                1
            } else {
                keep_every
            }),
            p.spec_budget() == budget,
            p.spec_seen() == 0,
            p.spec_written() == 0,
            !p.spec_truncated(),
    {
        Pacing {
            keep_every: if keep_every == 0 {
                1
            } else {
                keep_every
            },
            budget,
            seen: 0,
            written: 0,
            truncated: false,
        }
    }

    /// Decides on the next decoded frame: stop, and mark the GIF cut
    /// short, once the budget is written; else write the frame when it is
    /// a `keep_every`-th one counting from the first, and skip it
    /// otherwise.
    pub fn next(&mut self) -> (choice: FrameChoice)
        requires
            old(self).wf(),
        ensures
            final(self).wf(),
            final(self).spec_written() <= final(self).spec_budget(),
            final(self).spec_keep_every() == old(self).spec_keep_every(),
            final(self).spec_budget() == old(self).spec_budget(),
            old(self).spec_written() >= old(self).spec_budget() ==> {
                &&& choice == FrameChoice::Stop
                &&& final(self).spec_truncated()
                &&& final(self).spec_seen() == old(self).spec_seen()
                &&& final(self).spec_written() == old(self).spec_written()
            },
            old(self).spec_written() < old(self).spec_budget() ==> {
                &&& final(self).spec_seen() == old(self).spec_seen() + 1
                &&& final(self).spec_truncated() == old(self).spec_truncated()
                &&& if old(self).spec_seen() % old(self).spec_keep_every() as u64 == 0 {
                    &&& choice == FrameChoice::Write
                    &&& final(self).spec_written() == old(self).spec_written() + 1
                } else {
                    &&& choice == FrameChoice::Skip
                    &&& final(self).spec_written() == old(self).spec_written()
                }
            },
    {
        if self.written >= self.budget {
            self.truncated = true;
            return FrameChoice::Stop;
        }
        let k = self.keep_every as u64;
        proof {
            assert(self.written * self.keep_every <= u32::MAX * u32::MAX) by (nonlinear_arith)
                requires
                    self.written <= u32::MAX,
                    self.keep_every <= u32::MAX,
            ;
        }
        if self.seen % k == 0 {
            proof {
                assert(self.seen + 1 <= (self.written + 1) * self.keep_every) by (nonlinear_arith)
                    requires
                        self.seen <= self.written * self.keep_every,
                        self.keep_every > 0,
                ;
            }
            self.seen = self.seen + 1;
            self.written = self.written + 1;
            FrameChoice::Write
        } else {
            proof {
                assert((self.written * self.keep_every) as u64 % k == 0) by (nonlinear_arith)
                    requires
                        k == self.keep_every,
                        k > 0,
                        self.written * self.keep_every <= u64::MAX,
                ;
                assert(self.seen < self.written * self.keep_every);
            }
            self.seen = self.seen + 1;
            FrameChoice::Skip
        }
    }

    /// How many frames have been written.
    pub fn written(&self) -> (n: u32)
        ensures
            n == self.spec_written(),
    {
        self.written
    }

    /// Whether the clip had more frames than the GIF could hold.
    pub fn truncated(&self) -> (b: bool)
        ensures
            b == self.spec_truncated(),
    {
        self.truncated
    }
}

/// How hard the quantiser works for each frame: 1 is slowest and best, 30
/// fastest; 10 is a fair middle.
pub const QUANTISE_SPEED: i32 = 10;

/// The palette and the palette indices that `gif::Frame::from_rgb_speed`
/// makes of a `width` by `height` picture of RGB triples at a given speed.
pub uninterp spec fn quantised(width: u16, height: u16, rgb: Seq<u8>, speed: i32) -> (Seq<u8>, Seq<u8>);

/// Quantises an RGB picture to a palette of at most 256 colours with
/// `gif::Frame::from_rgb_speed`, and hands back the frame's palette and its
/// indices. The crate builds an exact palette of the picture's own colours
/// when there are at most 256 of them, and reduces them with NeuQuant
/// otherwise; which palette and indices come out is left to it: the
/// contract names them, and says only that there is one index per pixel
/// and a palette of whole RGB triples, at most 256 of them.
#[verifier::external_body]
fn quantise(width: u16, height: u16, rgb: &[u8], speed: i32) -> (r: (Option<Vec<u8>>, Vec<u8>))
    requires
        rgb@.len() == width * height * 3,
        1 <= speed <= 30,
    ensures
        r.0 is Some,
        r.0->0@ == quantised(width, height, rgb@, speed).0,
        r.1@ == quantised(width, height, rgb@, speed).1,
        r.1@.len() == width * height,
        r.0->0@.len() <= 768,
        r.0->0@.len() % 3 == 0,
{
    let frame = gif::Frame::from_rgb_speed(width, height, rgb, speed);
    (frame.palette, frame.buffer.into_owned())
}

/// One frame of a GIF: its size, how long it shows (in hundredths of a
/// second), and its picture as a palette of RGB triples with one palette
/// index per pixel.
#[derive(Debug)]
pub struct GifFrame {
    pub width: u16,
    pub height: u16,
    pub delay: u16,
    pub palette: Vec<u8>,
    pub indices: Vec<u8>,
}

/// Why a picture could not become a GIF frame.
#[derive(Debug, Clone, Copy, PartialEq, Eq, Structural)]
pub enum FrameError {
    /// The picture does not hold three bytes for every pixel of the size
    /// given.
    WrongSize,
}

/// A GIF frame of a `width` by `height` picture of RGB triples, shown for
/// `delay` hundredths of a second, quantised at `QUANTISE_SPEED`. Fails
/// when `rgb` does not hold exactly one triple per pixel.
pub fn gif_frame(width: u16, height: u16, rgb: &[u8], delay: u16) -> (r: Result<GifFrame, FrameError>)
    ensures
        match r {
            Ok(frame) => {
                &&& rgb@.len() == width * height * 3
                &&& frame.width == width
                &&& frame.height == height
                &&& frame.delay == delay
                &&& (frame.palette@, frame.indices@) == quantised(width, height, rgb@, QUANTISE_SPEED)
                &&& frame.indices@.len() == width * height
                &&& frame.palette@.len() <= 768
                &&& frame.palette@.len() % 3 == 0
            },
            Err(e) => rgb@.len() != width * height * 3 && e == FrameError::WrongSize,
        },
{
    assert(width * height <= 0xffff * 0xffff) by (nonlinear_arith)
        requires
            width <= 0xffff,
            height <= 0xffff,
    ;
    let needed = width as u64 * height as u64 * 3;
    if rgb.len() as u64 != needed {
        return Err(FrameError::WrongSize);
    }
    let (palette, indices) = quantise(width, height, rgb, QUANTISE_SPEED);
    let palette = match palette {
        Some(palette) => palette,
        None => Vec::new(),
    };
    Ok(GifFrame { width, height, delay, palette, indices })
}

} // verus!
