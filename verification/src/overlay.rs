//! Drawing overlays onto the planes of a decoded frame: blurring a
//! rectangle, and pressing a prepared stamp (a box, an arrow, text) onto it.
//!
//! A stamp is an alpha mask over the rectangle plus the plane value it
//! paints; how it is shaped (glyphs, the arrow's geometry, the colour
//! conversion) is worked out by the caller.

use vstd::arithmetic::div_mod::{lemma_fundamental_div_mod, lemma_fundamental_div_mod_converse};
use vstd::prelude::*;

use crate::protocol::OverlayKind;

verus! {

/// How many times a blur runs its box average over rows and columns.
pub const BLUR_PASSES: usize = 3;

/// The plane of a 4:2:0 frame being painted.
#[derive(Debug, Clone, Copy, PartialEq, Eq, Hash, Structural)]
pub enum Channel {
    Luma,
    Blue,
    Red,
}

/// A rectangle of pixels.
#[derive(Debug, Clone, Copy, PartialEq, Eq, Structural)]
pub struct Rect {
    pub left: usize,
    pub top: usize,
    pub width: usize,
    pub height: usize,
}

/// One plane of a frame: `height` rows of `width` values, each row starting
/// `stride` values after the one before.
pub struct Plane {
    pub data: Vec<u8>,
    pub stride: usize,
    pub width: usize,
    pub height: usize,
    pub channel: Channel,
}

/// A prepared overlay: how much of `value` covers each pixel of the
/// rectangle, row by row.
#[derive(Debug)]
pub struct Stamp {
    pub alpha: Vec<u8>,
    pub value: u8,
}

/// The rows of the plane lie inside its data.
pub open spec fn plane_fits(width: int, height: int, stride: int, len: int) -> bool {
    width <= stride && height * stride <= len
}

pub open spec fn smaller(a: int, b: int) -> int {
    if a <= b {
        a
    } else {
        b
    }
}

/// The part of `rect` inside a `width` by `height` plane, if any.
pub open spec fn clamped(rect: Rect, width: int, height: int) -> Option<Rect> {
    let left = smaller(rect.left as int, width);
    let top = smaller(rect.top as int, height);
    let right = smaller(rect.left + rect.width, width);
    let bottom = smaller(rect.top + rect.height, height);
    if right <= left || bottom <= top {
        None
    } else {
        Some(
            Rect {
                left: left as usize,
                top: top as usize,
                width: (right - left) as usize,
                height: (bottom - top) as usize,
            },
        )
    }
}

/// Whether pixel (`x`, `y`) lies in `rect`.
pub open spec fn holds_pixel(rect: Rect, x: int, y: int) -> bool {
    rect.left <= x < rect.left + rect.width && rect.top <= y < rect.top + rect.height
}

/// Cutting a rectangle to a plane gives exactly its intersection with the
/// plane: a pixel lies in the cut rectangle when it lies both in the
/// rectangle and on the `width` by `height` plane, and nothing is left when
/// they share no pixel. A rectangle wholly on the plane comes back as it
/// was.
pub proof fn law_a_clamped_rectangle_is_the_part_on_the_plane(rect: Rect, width: int, height: int)
    requires
        width >= 0,
        height >= 0,
    ensures
        match clamped(rect, width, height) {
            Some(c) => forall|x: int, y: int|
                #[trigger] holds_pixel(c, x, y) <==> (holds_pixel(rect, x, y) && 0 <= x < width && 0
                    <= y < height),
            None => forall|x: int, y: int|
                !(#[trigger] holds_pixel(rect, x, y) && 0 <= x < width && 0 <= y < height),
        },
        rect.left + rect.width <= width && rect.top + rect.height <= height && rect.width > 0
            && rect.height > 0 ==> clamped(rect, width, height) == Some(rect),
{
}

/// Cuts `rect` to the `width` by `height` plane; `None` when nothing of it
/// is left.
pub fn clamp(rect: Rect, width: usize, height: usize) -> (r: Option<Rect>)
    requires
        rect.left + rect.width <= usize::MAX,
        rect.top + rect.height <= usize::MAX,
    ensures
        r == clamped(rect, width as int, height as int),
        r matches Some(c) ==> c.left + c.width <= width && c.top + c.height <= height && c.width
            > 0 && c.height > 0,
{
    let left = if rect.left <= width {
        rect.left
    } else {
        width
    };
    let top = if rect.top <= height {
        rect.top
    } else {
        height
    };
    let right = if rect.left + rect.width <= width {
        rect.left + rect.width
    } else {
        width
    };
    let bottom = if rect.top + rect.height <= height {
        rect.top + rect.height
    } else {
        height
    };
    if right <= left || bottom <= top {
        return None;
    }
    Some(Rect { left, top, width: right - left, height: bottom - top })
}

/// The matching rectangle on a half-sized chroma plane, never less than one
/// pixel across.
pub fn halve(rect: Rect) -> (r: Rect)
    ensures
        r.left == rect.left / 2,
        r.top == rect.top / 2,
        r.width == (if rect.width / 2 >= 1 {
            rect.width / 2
        } else {
            1
        }),
        r.height == (if rect.height / 2 >= 1 {
            rect.height / 2
        } else {
            1
        }),
{
    let width = rect.width / 2;
    let height = rect.height / 2;
    Rect {
        left: rect.left / 2,
        top: rect.top / 2,
        width: if width >= 1 {
            width
        } else {
            1
        },
        height: if height >= 1 {
            height
        } else {
            1
        },
    }
}

/// The sum of a run of values.
pub open spec fn total(s: Seq<u8>) -> int
    decreases s.len(),
{
    if s.len() == 0 {
        0
    } else {
        total(s.drop_last()) + s.last()
    }
}

/// The window a smear averages around position `x`: `radius` either side,
/// cut to the line.
pub open spec fn window(x: int, radius: int, len: int) -> (int, int) {
    (if x >= radius {
        x - radius
    } else {
        0
    }, if x + radius + 1 <= len {
        x + radius + 1
    } else {
        len
    })
}

/// The average of the values in the window around `x`, rounded down.
pub open spec fn window_average(s: Seq<u8>, x: int, radius: int) -> int {
    let (from, to) = window(x, radius, s.len() as int);
    total(s.subrange(from, to)) / (to - from)
}

/// A line after a box average of `radius` either side.
pub open spec fn smeared(s: Seq<u8>, radius: int) -> Seq<u8> {
    Seq::new(s.len(), |x: int| window_average(s, x, radius) as u8)
}

proof fn lemma_total_bounds(s: Seq<u8>)
    ensures
        0 <= total(s) <= 255 * s.len(),
    decreases s.len(),
{
    if s.len() > 0 {
        lemma_total_bounds(s.drop_last());
    }
}

/// The sum up to `b` is the sum up to `a` plus the sum between.
proof fn lemma_total_split(s: Seq<u8>, a: int, b: int)
    requires
        0 <= a <= b <= s.len(),
    ensures
        total(s.take(b)) == total(s.take(a)) + total(s.subrange(a, b)),
    decreases b - a,
{
    if a < b {
        lemma_total_split(s, a, b - 1);
        assert(s.take(b).drop_last() =~= s.take(b - 1));
        assert(s.subrange(a, b).drop_last() =~= s.subrange(a, b - 1));
    } else {
        assert(s.subrange(a, b) =~= Seq::<u8>::empty());
    }
}

/// Sums add up: the sum of a run is the sum of its two parts, and a single
/// value sums to itself.
pub proof fn law_sums_add_up(a: Seq<u8>, b: Seq<u8>, v: u8)
    ensures
        total(a + b) == total(a) + total(b),
        total(seq![v]) == v,
        total(Seq::<u8>::empty()) == 0,
{
    let s = a + b;
    lemma_total_split(s, a.len() as int, s.len() as int);
    assert(s.take(s.len() as int) =~= s);
    assert(s.take(a.len() as int) =~= a);
    assert(s.subrange(a.len() as int, s.len() as int) =~= b);
    assert(seq![v].drop_last() =~= Seq::<u8>::empty());
    assert(seq![v].last() == v);
    assert(total(Seq::<u8>::empty()) == 0);
}

/// A window average is itself a value.
proof fn lemma_window_average_is_a_value(s: Seq<u8>, x: int, radius: int)
    requires
        0 <= x < s.len(),
        radius >= 0,
    ensures
        0 <= window_average(s, x, radius) <= 255,
{
    let (from, to) = window(x, radius, s.len() as int);
    let part = s.subrange(from, to);
    lemma_total_bounds(part);
    let t = total(part);
    let n = to - from;
    assert(0 <= t / n <= 255) by (nonlinear_arith)
        requires
            0 <= t <= 255 * n,
            n > 0,
    ;
}

/// Replaces each value of `line` by the average of the values up to
/// `radius` either side of it, using running sums kept in `prefix`.
pub fn smear(line: &mut Vec<u8>, radius: usize, prefix: &mut Vec<u32>)
    requires
        old(line)@.len() * 255 <= u32::MAX,
        old(line)@.len() + radius + 1 <= usize::MAX,
    ensures
        final(line)@ == smeared(old(line)@, radius as int),
{
    let ghost s = line@;
    prefix.clear();
    prefix.push(0);
    let mut running: u32 = 0;
    let mut i: usize = 0;
    assert(s.take(0) =~= Seq::<u8>::empty());
    while i < line.len()
        invariant
            line@ == s,
            s.len() * 255 <= u32::MAX,
            0 <= i <= s.len(),
            prefix@.len() == i + 1,
            running == total(s.take(i as int)),
            forall|k: int| 0 <= k <= i ==> #[trigger] prefix@[k] == total(s.take(k)),
        decreases s.len() - i,
    {
        assert(s.take(i + 1).drop_last() =~= s.take(i as int));
        proof {
            lemma_total_bounds(s.take(i + 1));
        }
        running = running + line[i] as u32;
        prefix.push(running);
        i = i + 1;
    }
    let length = line.len();
    let mut x: usize = 0;
    while x < length
        invariant
            length == s.len(),
            s.len() * 255 <= u32::MAX,
            s.len() + radius + 1 <= usize::MAX,
            line@.len() == s.len(),
            prefix@.len() == s.len() + 1,
            forall|k: int| 0 <= k <= s.len() ==> #[trigger] prefix@[k] == total(s.take(k)),
            0 <= x <= length,
            forall|k: int| 0 <= k < x ==> #[trigger] line@[k] == smeared(s, radius as int)[k],
            forall|k: int| x <= k < length ==> #[trigger] line@[k] == s[k],
        decreases length - x,
    {
        let from = if x >= radius {
            x - radius
        } else {
            0
        };
        let to = if x + radius + 1 <= length {
            x + radius + 1
        } else {
            length
        };
        proof {
            lemma_total_split(s, from as int, to as int);
            lemma_total_bounds(s.subrange(from as int, to as int));
            lemma_window_average_is_a_value(s, x as int, radius as int);
        }
        assert(from < to && to <= length);
        assert(prefix@[to as int] == total(s.take(to as int)));
        assert(prefix@[from as int] == total(s.take(from as int)));
        let sum = prefix[to] - prefix[from];
        let count = (to - from) as u32;
        let average = sum / count;
        assert(average == window_average(s, x as int, radius as int));
        line.set(x, average as u8);
        x = x + 1;
    }
    assert(line@ =~= smeared(s, radius as int));
}

/// Whether position `i` of a plane with rows `stride` apart lies in `rect`.
pub open spec fn inside(rect: Rect, stride: int, i: int) -> bool {
    &&& stride > 0
    &&& rect.top <= i / stride < rect.top + rect.height
    &&& rect.left <= i % stride < rect.left + rect.width
}

/// A plane value after `value` is laid over it with coverage `alpha` out of
/// 255, rounded to nearest.
pub open spec fn blend(old: u8, alpha: u8, value: u8) -> u8 {
    if alpha == 0 {
        old
    } else if alpha == 255 {
        value
    } else {
        ((old * (255 - alpha) + value * alpha + 127) / 255) as u8
    }
}

/// A stamp laid over a value gives a value between the two: the old one
/// where it does not cover, its own where it covers fully.
pub proof fn law_a_blend_lies_between_old_and_new(old: u8, alpha: u8, value: u8)
    ensures
        (if old <= value {
            old <= blend(old, alpha, value) <= value
        } else {
            value <= blend(old, alpha, value) <= old
        }),
        alpha == 0 ==> blend(old, alpha, value) == old,
        alpha == 255 ==> blend(old, alpha, value) == value,
{
    if alpha != 0 && alpha != 255 {
        let a = alpha as int;
        let o = old as int;
        let v = value as int;
        assert((o * (255 - a) + v * a + 127) / 255 <= if o <= v { v } else { o }) by (nonlinear_arith)
            requires
                0 < a < 255,
                0 <= o <= 255,
                0 <= v <= 255,
        ;
        assert((o * (255 - a) + v * a + 127) / 255 >= if o <= v { o } else { v }) by (nonlinear_arith)
            requires
                0 < a < 255,
                0 <= o <= 255,
                0 <= v <= 255,
        ;
    }
}

/// The plane data after a stamp is pressed onto `rect`; everything outside
/// it stays as it was.
pub open spec fn pressed(d: Seq<u8>, stride: int, rect: Rect, alpha: Seq<u8>, value: u8) -> Seq<u8> {
    Seq::new(
        d.len(),
        |i: int|
            if inside(rect, stride, i) {
                blend(d[i], alpha[(i / stride - rect.top) * rect.width + (i % stride - rect.left)], value)
            } else {
                d[i]
            },
    )
}

/// The position of column `x` in row `y` identifies the pair again.
proof fn lemma_position(y: int, x: int, stride: int)
    requires
        0 <= x < stride,
        y >= 0,
    ensures
        (y * stride + x) / stride == y,
        (y * stride + x) % stride == x,
{
    lemma_fundamental_div_mod_converse(y * stride + x, stride, y, x);
}

/// A row and column inside a plane that fits its data give a position in it.
proof fn lemma_position_fits(y: int, x: int, height: int, width: int, stride: int, len: int)
    requires
        0 <= y < height,
        0 <= x < width,
        width <= stride,
        height * stride <= len,
    ensures
        0 <= y * stride + x < len,
        y * stride <= len,
{
    assert(0 <= y * stride + x < len && y * stride <= len) by (nonlinear_arith)
        requires
            0 <= y < height,
            0 <= x < width,
            width <= stride,
            height * stride <= len,
    ;
}

/// The start of a row, and any column up to its width, lie inside the data.
proof fn lemma_row_fits(y: int, x: int, height: int, width: int, stride: int, len: int)
    requires
        0 <= y < height,
        0 <= x <= width,
        width <= stride,
        height * stride <= len,
    ensures
        0 <= y * stride,
        y * stride + x <= len,
{
    assert(0 <= y * stride && y * stride + x <= len) by (nonlinear_arith)
        requires
            0 <= y < height,
            0 <= x <= width,
            width <= stride,
            height * stride <= len,
    ;
}

proof fn lemma_mul_commutes(a: int, b: int)
    ensures
        a * b == b * a,
{
    assert(a * b == b * a) by (nonlinear_arith);
}

/// Two positions with the same row and column are the same.
proof fn lemma_same_position(i: int, j: int, stride: int)
    requires
        stride > 0,
        i / stride == j / stride,
        i % stride == j % stride,
    ensures
        i == j,
{
    lemma_fundamental_div_mod(i, stride);
    lemma_fundamental_div_mod(j, stride);
}

/// Lays the stamp over `rect`, pixel by pixel: untouched where its alpha is
/// 0, replaced where it is 255, blended in between.
pub fn press(plane: &mut Plane, rect: Rect, stamp: &Stamp)
    requires
        plane_fits(
            old(plane).width as int,
            old(plane).height as int,
            old(plane).stride as int,
            old(plane).data@.len() as int,
        ),
        rect.left + rect.width <= old(plane).width,
        rect.top + rect.height <= old(plane).height,
        stamp.alpha@.len() == rect.width * rect.height,
    ensures
        final(plane).data@ == pressed(
            old(plane).data@,
            old(plane).stride as int,
            rect,
            stamp.alpha@,
            stamp.value,
        ),
        final(plane).stride == old(plane).stride,
        final(plane).width == old(plane).width,
        final(plane).height == old(plane).height,
        final(plane).channel == old(plane).channel,
{
    let ghost orig = plane.data@;
    let stride = plane.stride;
    let ghost want = pressed(orig, stride as int, rect, stamp.alpha@, stamp.value);
    assert(orig.len() == plane.data.len());
    assert(stamp.alpha@.len() == stamp.alpha.len());
    let mut y: usize = 0;
    while y < rect.height
        invariant
            plane_fits(plane.width as int, plane.height as int, stride as int, orig.len() as int),
            plane.stride == stride,
            plane.width == old(plane).width,
            plane.height == old(plane).height,
            plane.channel == old(plane).channel,
            rect.left + rect.width <= plane.width,
            rect.top + rect.height <= plane.height,
            stamp.alpha@.len() == rect.width * rect.height,
            want == pressed(orig, stride as int, rect, stamp.alpha@, stamp.value),
            0 <= y <= rect.height,
            orig.len() <= usize::MAX,
            stamp.alpha@.len() <= usize::MAX,
            plane.data@.len() == orig.len(),
            forall|i: int|
                0 <= i < orig.len() ==> #[trigger] plane.data@[i] == (if inside(rect, stride as int, i)
                    && i / (stride as int) < rect.top + y {
                    want[i]
                } else {
                    orig[i]
                }),
        decreases rect.height - y,
    {
        proof {
            lemma_row_fits(
                (rect.top + y) as int,
                rect.left as int,
                plane.height as int,
                plane.width as int,
                stride as int,
                orig.len() as int,
            );
            lemma_mul_commutes(rect.width as int, rect.height as int);
            lemma_row_fits(
                y as int,
                rect.width as int,
                rect.height as int,
                rect.width as int,
                rect.width as int,
                stamp.alpha@.len() as int,
            );
        }
        let start = (rect.top + y) * stride + rect.left;
        let row = y * rect.width;
        let mut x: usize = 0;
        while x < rect.width
            invariant
                plane_fits(plane.width as int, plane.height as int, stride as int, orig.len() as int),
                plane.stride == stride,
                plane.width == old(plane).width,
                plane.height == old(plane).height,
                plane.channel == old(plane).channel,
                rect.left + rect.width <= plane.width,
                rect.top + rect.height <= plane.height,
                stamp.alpha@.len() == rect.width * rect.height,
                want == pressed(orig, stride as int, rect, stamp.alpha@, stamp.value),
                0 <= y < rect.height,
                orig.len() <= usize::MAX,
                stamp.alpha@.len() <= usize::MAX,
                start == (rect.top + y) * stride + rect.left,
                row == y * rect.width,
                0 <= x <= rect.width,
                plane.data@.len() == orig.len(),
                forall|i: int|
                    0 <= i < orig.len() ==> #[trigger] plane.data@[i] == (if inside(rect, stride as int, i)
                        && (i / (stride as int) < rect.top + y || (i / (stride as int) == rect.top + y
                        && i % (stride as int) < rect.left + x)) {
                        want[i]
                    } else {
                        orig[i]
                    }),
            decreases rect.width - x,
        {
            proof {
                lemma_position_fits(
                    (rect.top + y) as int,
                    (rect.left + x) as int,
                    plane.height as int,
                    plane.width as int,
                    stride as int,
                    orig.len() as int,
                );
                lemma_mul_commutes(rect.width as int, rect.height as int);
                lemma_position_fits(
                    y as int,
                    x as int,
                    rect.height as int,
                    rect.width as int,
                    rect.width as int,
                    stamp.alpha@.len() as int,
                );
                lemma_position((rect.top + y) as int, (rect.left + x) as int, stride as int);
            }
            let at = start + x;
            let alpha = stamp.alpha[row + x];
            let old_value = plane.data[at];
            assert(old_value == orig[at as int]);
            let new_value = if alpha == 0 {
                old_value
            } else if alpha == 255 {
                stamp.value
            } else {
                assert(old_value as u32 * (255 - alpha as u32) + stamp.value as u32 * alpha as u32 + 127 <= 255 * 255 + 127) by (nonlinear_arith)
                    requires
                        alpha < 255,
                ;
                ((old_value as u32 * (255 - alpha as u32) + stamp.value as u32 * alpha as u32 + 127) / 255) as u8
            };
            assert(new_value == want[at as int]);
            let ghost before = plane.data@;
            plane.data.set(at, new_value);
            assert forall|i: int| 0 <= i < orig.len() implies #[trigger] plane.data@[i] == (if inside(
                rect,
                stride as int,
                i,
            ) && (i / (stride as int) < rect.top + y || (i / (stride as int) == rect.top + y && i % (
            stride as int) < rect.left + x + 1)) {
                want[i]
            } else {
                orig[i]
            }) by {
                if i != at {
                    assert(plane.data@[i] == before[i]);
                    if i / (stride as int) == rect.top + y && i % (stride as int) == rect.left + x {
                        lemma_same_position(i, at as int, stride as int);
                    }
                }
            }
            x = x + 1;
        }
        assert forall|i: int| 0 <= i < orig.len() implies #[trigger] plane.data@[i] == (if inside(
            rect,
            stride as int,
            i,
        ) && i / (stride as int) < rect.top + y + 1 {
            want[i]
        } else {
            orig[i]
        }) by {
            assert(plane.data@[i] == plane.data@[i]);
        }
        y = y + 1;
    }
    assert(plane.data@ =~= want);
}

/// The values of row `y` that lie in `rect`.
pub open spec fn row_segment(d: Seq<u8>, stride: int, rect: Rect, y: int) -> Seq<u8> {
    d.subrange(y * stride + rect.left, y * stride + rect.left + rect.width)
}

/// The values of column `x` that lie in `rect`, top to bottom.
pub open spec fn column_segment(d: Seq<u8>, stride: int, rect: Rect, x: int) -> Seq<u8> {
    Seq::new(rect.height as nat, |k: int| d[(rect.top + k) * stride + x])
}

/// Every row of `rect` smeared on its own.
pub open spec fn rows_smeared(d: Seq<u8>, stride: int, rect: Rect, radius: int) -> Seq<u8> {
    Seq::new(
        d.len(),
        |i: int|
            if inside(rect, stride, i) {
                smeared(row_segment(d, stride, rect, i / stride), radius)[i % stride - rect.left]
            } else {
                d[i]
            },
    )
}

/// Every column of `rect` smeared on its own.
pub open spec fn columns_smeared(d: Seq<u8>, stride: int, rect: Rect, radius: int) -> Seq<u8> {
    Seq::new(
        d.len(),
        |i: int|
            if inside(rect, stride, i) {
                smeared(column_segment(d, stride, rect, i % stride), radius)[i / stride - rect.top]
            } else {
                d[i]
            },
    )
}

/// A row pass replaces each pixel of the rectangle, at column `x` and row
/// `y` of it, by the average, rounded down, of the pixels of its row up to
/// `radius` either side of it that lie in the rectangle.
pub proof fn law_a_row_pass_averages_each_pixel_along_its_row(
    d: Seq<u8>,
    stride: int,
    rect: Rect,
    radius: int,
    x: int,
    y: int,
)
    requires
        radius >= 0,
        0 <= x < rect.width,
        0 <= y < rect.height,
        rect.left + rect.width <= stride,
        (rect.top + y) * stride + rect.left + rect.width <= d.len(),
    ensures
        ({
            let base = (rect.top + y) * stride + rect.left;
            let (from, to) = window(x, radius, rect.width as int);
            rows_smeared(d, stride, rect, radius)[base + x] == (total(d.subrange(base + from, base + to))
                / (to - from)) as u8
        }),
{
    let row = rect.top + y;
    let i = row * stride + rect.left + x;
    lemma_position(row, rect.left + x, stride);
    assert(i == row * stride + (rect.left + x));
    assert(inside(rect, stride, i));
    let seg = row_segment(d, stride, rect, row);
    let (from, to) = window(x, radius, rect.width as int);
    assert(seg.subrange(from, to) =~= d.subrange(row * stride + rect.left + from, row * stride
        + rect.left + to));
}

/// A column pass replaces each pixel of the rectangle, at column `x` and
/// row `y` of it, by the average, rounded down, of the pixels of its column
/// up to `radius` above and below it that lie in the rectangle.
pub proof fn law_a_column_pass_averages_each_pixel_along_its_column(
    d: Seq<u8>,
    stride: int,
    rect: Rect,
    radius: int,
    x: int,
    y: int,
)
    requires
        radius >= 0,
        0 <= x < rect.width,
        0 <= y < rect.height,
        rect.left + rect.width <= stride,
        (rect.top + rect.height) * stride <= d.len(),
    ensures
        ({
            let column = rect.left + x;
            let (from, to) = window(y, radius, rect.height as int);
            columns_smeared(d, stride, rect, radius)[(rect.top + y) * stride + column] == (total(
                Seq::new((to - from) as nat, |k: int| d[(rect.top + from + k) * stride + column]),
            ) / (to - from)) as u8
        }),
{
    let column = rect.left + x;
    let i = (rect.top + y) * stride + column;
    lemma_position(rect.top + y, column, stride);
    assert(inside(rect, stride, i));
    let seg = column_segment(d, stride, rect, column);
    let (from, to) = window(y, radius, rect.height as int);
    let part = Seq::new((to - from) as nat, |k: int| d[(rect.top + from + k) * stride + column]);
    assert(seg.len() == rect.height);
    assert(i < d.len()) by (nonlinear_arith)
        requires
            i == (rect.top + y) * stride + column,
            column < stride,
            y < rect.height,
            (rect.top + rect.height) * stride <= d.len(),
            stride > 0,
    ;
    assert(i % stride == column);
    assert(i / stride - rect.top == y);
    assert(columns_smeared(d, stride, rect, radius)[i] == smeared(seg, radius)[y]);
    assert(smeared(seg, radius)[y] == window_average(seg, y, radius) as u8);
    assert forall|k: int| 0 <= k < to - from implies #[trigger] seg.subrange(from, to)[k] == part[k] by {
        assert(seg.subrange(from, to)[k] == seg[from + k]);
        assert(rect.top + (from + k) == rect.top + from + k);
    }
    assert(seg.subrange(from, to) =~= part);
}

/// One blur pass: rows first, then columns.
pub open spec fn blur_pass(d: Seq<u8>, stride: int, rect: Rect, radius: int) -> Seq<u8> {
    columns_smeared(rows_smeared(d, stride, rect, radius), stride, rect, radius)
}

/// The radius a blur strength asks for, kept between 1 and 64.
pub open spec fn blur_radius(strength: u32) -> int {
    if strength < 1 {
        1
    } else if strength > 64 {
        64
    } else {
        strength as int
    }
}

/// `n` blur passes one after another.
pub open spec fn blur_passes(d: Seq<u8>, stride: int, rect: Rect, radius: int, n: nat) -> Seq<u8>
    decreases n,
{
    if n == 0 {
        d
    } else {
        blur_pass(blur_passes(d, stride, rect, radius, (n - 1) as nat), stride, rect, radius)
    }
}

/// A rectangle after `BLUR_PASSES` passes of a box average.
pub open spec fn blurred(d: Seq<u8>, stride: int, rect: Rect, strength: u32) -> Seq<u8> {
    blur_passes(d, stride, rect, blur_radius(strength), BLUR_PASSES as nat)
}

/// A blur runs its row and column pass three times over, with a radius of
/// its strength kept between 1 and 64.
pub proof fn law_a_blur_is_three_passes(d: Seq<u8>, stride: int, rect: Rect, strength: u32)
    ensures
        ({
            let r = if strength < 1 {
                1
            } else if strength > 64 {
                64
            } else {
                strength as int
            };
            blurred(d, stride, rect, strength) == blur_pass(
                blur_pass(blur_pass(d, stride, rect, r), stride, rect, r),
                stride,
                rect,
                r,
            )
        }),
{
    reveal_with_fuel(blur_passes, 4);
}

/// What a blur needs of the rectangle and the data it lies in.
pub open spec fn blur_fits(rect: Rect, stride: int, len: int) -> bool {
    &&& rect.left + rect.width <= stride
    &&& rect.top + rect.height <= usize::MAX
    &&& (rect.top + rect.height) * stride <= len
    &&& len <= usize::MAX
    &&& rect.width * 255 <= u32::MAX
    &&& rect.height * 255 <= u32::MAX
}

/// Smears each row of `rect` in place.
fn smear_rows(data: &mut Vec<u8>, stride: usize, rect: Rect, radius: usize, prefix: &mut Vec<u32>)
    requires
        blur_fits(rect, stride as int, old(data)@.len() as int),
        radius <= 64,
    ensures
        final(data)@ == rows_smeared(old(data)@, stride as int, rect, radius as int),
{
    let ghost orig = data@;
    let ghost want = rows_smeared(orig, stride as int, rect, radius as int);
    let mut y: usize = 0;
    while y < rect.height
        invariant
            blur_fits(rect, stride as int, orig.len() as int),
            radius <= 64,
            want == rows_smeared(orig, stride as int, rect, radius as int),
            0 <= y <= rect.height,
            data@.len() == orig.len(),
            forall|i: int|
                0 <= i < orig.len() ==> #[trigger] data@[i] == (if inside(rect, stride as int, i) && i
                    / (stride as int) < rect.top + y {
                    want[i]
                } else {
                    orig[i]
                }),
        decreases rect.height - y,
    {
        proof {
            lemma_row_fits(
                (rect.top + y) as int,
                (rect.left + rect.width) as int,
                (rect.top + rect.height) as int,
                (rect.left + rect.width) as int,
                stride as int,
                orig.len() as int,
            );
        }
        let start = (rect.top + y) * stride + rect.left;
        let ghost segment = row_segment(orig, stride as int, rect, (rect.top + y) as int);
        let mut line: Vec<u8> = Vec::with_capacity(rect.width);
        let mut x: usize = 0;
        while x < rect.width
            invariant
                blur_fits(rect, stride as int, orig.len() as int),
                0 <= y < rect.height,
                start == (rect.top + y) * stride + rect.left,
                start + rect.width <= orig.len(),
                segment == row_segment(orig, stride as int, rect, (rect.top + y) as int),
                0 <= x <= rect.width,
                line@ == segment.take(x as int),
                data@.len() == orig.len(),
                forall|i: int|
                    0 <= i < orig.len() ==> #[trigger] data@[i] == (if inside(rect, stride as int, i)
                        && i / (stride as int) < rect.top + y {
                        want[i]
                    } else {
                        orig[i]
                    }),
            decreases rect.width - x,
        {
            proof {
                lemma_position((rect.top + y) as int, (rect.left + x) as int, stride as int);
            }
            assert(data@[start + x] == orig[start + x]);
            line.push(data[start + x]);
            x = x + 1;
            assert(line@ =~= segment.take(x as int));
        }
        assert(line@ =~= segment);
        smear(&mut line, radius, prefix);
        let mut x: usize = 0;
        while x < rect.width
            invariant
                blur_fits(rect, stride as int, orig.len() as int),
                want == rows_smeared(orig, stride as int, rect, radius as int),
                0 <= y < rect.height,
                start == (rect.top + y) * stride + rect.left,
                start + rect.width <= orig.len(),
                segment == row_segment(orig, stride as int, rect, (rect.top + y) as int),
                line@ == smeared(segment, radius as int),
                0 <= x <= rect.width,
                data@.len() == orig.len(),
                forall|i: int|
                    0 <= i < orig.len() ==> #[trigger] data@[i] == (if inside(rect, stride as int, i)
                        && (i / (stride as int) < rect.top + y || (i / (stride as int) == rect.top + y
                        && i % (stride as int) < rect.left + x)) {
                        want[i]
                    } else {
                        orig[i]
                    }),
            decreases rect.width - x,
        {
            let at = start + x;
            proof {
                lemma_position((rect.top + y) as int, (rect.left + x) as int, stride as int);
            }
            assert(want[at as int] == line@[x as int]);
            let ghost before = data@;
            data.set(at, line[x]);
            assert forall|i: int| 0 <= i < orig.len() implies #[trigger] data@[i] == (if inside(
                rect,
                stride as int,
                i,
            ) && (i / (stride as int) < rect.top + y || (i / (stride as int) == rect.top + y && i % (
            stride as int) < rect.left + x + 1)) {
                want[i]
            } else {
                orig[i]
            }) by {
                if i != at {
                    assert(data@[i] == before[i]);
                    if i / (stride as int) == rect.top + y && i % (stride as int) == rect.left + x {
                        lemma_same_position(i, at as int, stride as int);
                    }
                }
            }
            x = x + 1;
        }
        assert forall|i: int| 0 <= i < orig.len() implies #[trigger] data@[i] == (if inside(
            rect,
            stride as int,
            i,
        ) && i / (stride as int) < rect.top + y + 1 {
            want[i]
        } else {
            orig[i]
        }) by {
            assert(data@[i] == data@[i]);
        }
        y = y + 1;
    }
    assert(data@ =~= want);
}

/// Smears each column of `rect` in place.
fn smear_columns(
    data: &mut Vec<u8>,
    stride: usize,
    rect: Rect,
    radius: usize,
    prefix: &mut Vec<u32>,
)
    requires
        blur_fits(rect, stride as int, old(data)@.len() as int),
        radius <= 64,
    ensures
        final(data)@ == columns_smeared(old(data)@, stride as int, rect, radius as int),
{
    let ghost orig = data@;
    let ghost want = columns_smeared(orig, stride as int, rect, radius as int);
    let mut c: usize = 0;
    while c < rect.width
        invariant
            blur_fits(rect, stride as int, orig.len() as int),
            radius <= 64,
            want == columns_smeared(orig, stride as int, rect, radius as int),
            0 <= c <= rect.width,
            data@.len() == orig.len(),
            forall|i: int|
                0 <= i < orig.len() ==> #[trigger] data@[i] == (if inside(rect, stride as int, i) && i
                    % (stride as int) < rect.left + c {
                    want[i]
                } else {
                    orig[i]
                }),
        decreases rect.width - c,
    {
        let column_at = rect.left + c;
        let ghost segment = column_segment(orig, stride as int, rect, column_at as int);
        let mut line: Vec<u8> = Vec::with_capacity(rect.height);
        let mut k: usize = 0;
        while k < rect.height
            invariant
                blur_fits(rect, stride as int, orig.len() as int),
                0 <= c < rect.width,
                column_at == rect.left + c,
                segment == column_segment(orig, stride as int, rect, column_at as int),
                0 <= k <= rect.height,
                line@ == segment.take(k as int),
                data@.len() == orig.len(),
                forall|i: int|
                    0 <= i < orig.len() ==> #[trigger] data@[i] == (if inside(rect, stride as int, i)
                        && i % (stride as int) < rect.left + c {
                        want[i]
                    } else {
                        orig[i]
                    }),
            decreases rect.height - k,
        {
            proof {
                lemma_position_fits(
                    (rect.top + k) as int,
                    column_at as int,
                    (rect.top + rect.height) as int,
                    (rect.left + rect.width) as int,
                    stride as int,
                    orig.len() as int,
                );
                lemma_position((rect.top + k) as int, column_at as int, stride as int);
            }
            let at = (rect.top + k) * stride + column_at;
            assert(data@[at as int] == orig[at as int]);
            line.push(data[at]);
            k = k + 1;
            assert(line@ =~= segment.take(k as int));
        }
        assert(line@ =~= segment);
        smear(&mut line, radius, prefix);
        let mut k: usize = 0;
        while k < rect.height
            invariant
                blur_fits(rect, stride as int, orig.len() as int),
                want == columns_smeared(orig, stride as int, rect, radius as int),
                0 <= c < rect.width,
                column_at == rect.left + c,
                segment == column_segment(orig, stride as int, rect, column_at as int),
                line@ == smeared(segment, radius as int),
                0 <= k <= rect.height,
                data@.len() == orig.len(),
                forall|i: int|
                    0 <= i < orig.len() ==> #[trigger] data@[i] == (if inside(rect, stride as int, i)
                        && (i % (stride as int) < rect.left + c || (i % (stride as int) == rect.left + c
                        && i / (stride as int) < rect.top + k)) {
                        want[i]
                    } else {
                        orig[i]
                    }),
            decreases rect.height - k,
        {
            proof {
                lemma_position_fits(
                    (rect.top + k) as int,
                    column_at as int,
                    (rect.top + rect.height) as int,
                    (rect.left + rect.width) as int,
                    stride as int,
                    orig.len() as int,
                );
                lemma_position((rect.top + k) as int, column_at as int, stride as int);
            }
            let at = (rect.top + k) * stride + column_at;
            assert(want[at as int] == line@[k as int]);
            let ghost before = data@;
            data.set(at, line[k]);
            assert forall|i: int| 0 <= i < orig.len() implies #[trigger] data@[i] == (if inside(
                rect,
                stride as int,
                i,
            ) && (i % (stride as int) < rect.left + c || (i % (stride as int) == rect.left + c && i / (
            stride as int) < rect.top + k + 1)) {
                want[i]
            } else {
                orig[i]
            }) by {
                if i != at {
                    assert(data@[i] == before[i]);
                    if i / (stride as int) == rect.top + k && i % (stride as int) == rect.left + c {
                        lemma_same_position(i, at as int, stride as int);
                    }
                }
            }
            k = k + 1;
        }
        assert forall|i: int| 0 <= i < orig.len() implies #[trigger] data@[i] == (if inside(
            rect,
            stride as int,
            i,
        ) && i % (stride as int) < rect.left + c + 1 {
            want[i]
        } else {
            orig[i]
        }) by {
            assert(data@[i] == data@[i]);
        }
        c = c + 1;
    }
    assert(data@ =~= want);
}

/// Blurs `rect`, which lies inside the plane, with a box average of the
/// given strength (a radius kept between 1 and 64) run `BLUR_PASSES` times
/// over rows and columns; nothing outside `rect` changes.
pub fn blur(plane: &mut Plane, rect: Rect, strength: u32)
    requires
        plane_fits(
            old(plane).width as int,
            old(plane).height as int,
            old(plane).stride as int,
            old(plane).data@.len() as int,
        ),
        rect.left + rect.width <= old(plane).width,
        rect.top + rect.height <= old(plane).height,
        rect.width * 255 <= u32::MAX,
        rect.height * 255 <= u32::MAX,
    ensures
        final(plane).data@ == blurred(old(plane).data@, old(plane).stride as int, rect, strength),
        final(plane).stride == old(plane).stride,
        final(plane).width == old(plane).width,
        final(plane).height == old(plane).height,
        final(plane).channel == old(plane).channel,
{
    let radius: usize = if strength < 1 {
        1
    } else if strength > 64 {
        64
    } else {
        strength as usize
    };
    if rect.width == 0 || rect.height == 0 {
        proof {
            lemma_empty_rect_blur_keeps(plane.data@, plane.stride as int, rect, radius as int, 3);
        }
        return;
    }
    let ghost orig = plane.data@;
    let stride = plane.stride;
    assert(orig.len() == plane.data.len());
    proof {
        lemma_mul_mono_int((rect.top + rect.height) as int, plane.height as int, stride as int);
    }
    let mut prefix: Vec<u32> = Vec::new();
    let mut pass: usize = 0;
    while pass < BLUR_PASSES
        invariant
            blur_fits(rect, stride as int, orig.len() as int),
            radius == blur_radius(strength),
            plane.stride == stride,
            plane.stride == old(plane).stride,
            plane.width == old(plane).width,
            plane.height == old(plane).height,
            plane.channel == old(plane).channel,
            0 <= pass <= BLUR_PASSES,
            plane.data@.len() == orig.len(),
            plane.data@ == blur_passes(orig, stride as int, rect, radius as int, pass as nat),
        decreases BLUR_PASSES - pass,
    {
        smear_rows(&mut plane.data, stride, rect, radius, &mut prefix);
        smear_columns(&mut plane.data, stride, rect, radius, &mut prefix);
        pass = pass + 1;
    }
}

proof fn lemma_mul_mono_int(a: int, b: int, c: int)
    requires
        0 <= a <= b,
        c >= 0,
    ensures
        a * c <= b * c,
{
    assert(a * c <= b * c) by (nonlinear_arith)
        requires
            0 <= a <= b,
            c >= 0,
    ;
}

/// Blurring a rectangle with nothing in it changes nothing.
proof fn lemma_empty_rect_blur_keeps(d: Seq<u8>, stride: int, rect: Rect, radius: int, n: nat)
    requires
        rect.width == 0 || rect.height == 0,
    ensures
        blur_passes(d, stride, rect, radius, n) == d,
    decreases n,
{
    if n > 0 {
        lemma_empty_rect_blur_keeps(d, stride, rect, radius, (n - 1) as nat);
        let rows = rows_smeared(d, stride, rect, radius);
        assert(rows =~= d);
        assert(columns_smeared(rows, stride, rect, radius) =~= d);
    }
}

/// Whether a stamp handed to `apply` was made for the part of `rect` left
/// after cutting it to the plane.
pub open spec fn stamp_fits(stamp: Option<&Stamp>, rect: Rect, width: int, height: int) -> bool {
    match stamp {
        Some(s) => match clamped(rect, width, height) {
            Some(c) => s.alpha@.len() == c.width * c.height,
            None => true,
        },
        None => true,
    }
}

/// The plane data after `apply`: `rect` is cut to the plane; a blur blurs
/// what is left of it, any other overlay presses the stamp made for it, and
/// with no stamp (text that draws nothing) or nothing left of `rect`, the
/// plane stays as it was.
pub open spec fn applied(
    d: Seq<u8>,
    stride: int,
    width: int,
    height: int,
    rect: Rect,
    kind: OverlayKind,
    stamp: Option<&Stamp>,
) -> Seq<u8> {
    match clamped(rect, width, height) {
        None => d,
        Some(c) => match kind {
            OverlayKind::Blur { strength } => blurred(d, stride, c, strength),
            _ => match stamp {
                Some(s) => pressed(d, stride, c, s.alpha@, s.value),
                None => d,
            },
        },
    }
}

/// What a plane has to satisfy to be drawn on.
pub open spec fn drawable(plane: &Plane) -> bool {
    &&& plane_fits(plane.width as int, plane.height as int, plane.stride as int, plane.data@.len() as int)
    &&& plane.width * 255 <= u32::MAX
    &&& plane.height * 255 <= u32::MAX
}

/// Draws an overlay of `kind` over `rect` (cut to the plane): a blur is
/// worked out here; for boxes, arrows and text the caller hands over the
/// stamp it made for the cut rectangle, or `None` when it draws nothing.
pub fn apply(plane: &mut Plane, rect: Rect, kind: &OverlayKind, stamp: Option<&Stamp>)
    requires
        drawable(old(plane)),
        rect.left + rect.width <= usize::MAX,
        rect.top + rect.height <= usize::MAX,
        stamp_fits(stamp, rect, old(plane).width as int, old(plane).height as int),
    ensures
        final(plane).data@ == applied(
            old(plane).data@,
            old(plane).stride as int,
            old(plane).width as int,
            old(plane).height as int,
            rect,
            *kind,
            stamp,
        ),
        final(plane).stride == old(plane).stride,
        final(plane).width == old(plane).width,
        final(plane).height == old(plane).height,
        final(plane).channel == old(plane).channel,
        forall|i: int|
            0 <= i < old(plane).data@.len() && (match clamped(
                rect,
                old(plane).width as int,
                old(plane).height as int,
            ) {
                Some(c) => !inside(c, old(plane).stride as int, i),
                None => true,
            }) ==> #[trigger] final(plane).data@[i] == old(plane).data@[i],
{
    let ghost before = plane.data@;
    let cut = match clamp(rect, plane.width, plane.height) {
        Some(cut) => cut,
        None => {
            return;
        },
    };
    match kind {
        OverlayKind::Blur { strength } => {
            blur(plane, cut, *strength);
        },
        _ => match stamp {
            Some(stamp) => {
                press(plane, cut, stamp);
            },
            None => {},
        },
    }
    assert forall|i: int|
        0 <= i < before.len() && !inside(cut, plane.stride as int, i) implies #[trigger] plane.data@[i]
        == before[i] by {
        law_apply_leaves_the_rest_of_the_plane_alone(
            before,
            plane.stride as int,
            plane.width as int,
            plane.height as int,
            rect,
            *kind,
            stamp,
            i,
        );
    }
}

/// Identifies a kept stamp: the overlay's index, the plane, and the size of
/// the rectangle it was made for.
pub type StampKey = (usize, Channel, usize, usize);

/// The stamp kept under `key`, if one was kept (the first, should there be
/// several).
pub open spec fn kept_stamp(
    made: Seq<(StampKey, Option<Stamp>)>,
    key: StampKey,
) -> Option<Option<Stamp>>
    decreases made.len(),
{
    if made.len() == 0 {
        None
    } else if made[0].0 == key {
        Some(made[0].1)
    } else {
        kept_stamp(made.drop_first(), key)
    }
}

/// No key is kept twice: one stamp per overlay, plane and size.
pub open spec fn each_key_once(made: Seq<(StampKey, Option<Stamp>)>) -> bool {
    forall|i: int, j: int| 0 <= i < j < made.len() ==> (#[trigger] made[i]).0 != (#[trigger] made[j]).0
}

/// A key finds nothing exactly when no entry is kept under it.
pub proof fn lemma_kept_stamp_none(made: Seq<(StampKey, Option<Stamp>)>, key: StampKey)
    ensures
        kept_stamp(made, key) is None <==> forall|i: int| 0 <= i < made.len() ==> (#[trigger] made[i]).0 != key,
    decreases made.len(),
{
    if made.len() > 0 {
        let rest = made.drop_first();
        lemma_kept_stamp_none(rest, key);
        assert forall|i: int| 1 <= i < made.len() implies made[i] == rest[i - 1] by {}
        if kept_stamp(made, key) is None {
            assert forall|i: int| 0 <= i < made.len() implies (#[trigger] made[i]).0 != key by {
                if i > 0 {
                    assert(made[i] == rest[i - 1]);
                }
            }
        }
        if forall|i: int| 0 <= i < made.len() ==> (#[trigger] made[i]).0 != key {
            assert(made[0].0 != key);
            assert forall|i: int| 0 <= i < rest.len() implies (#[trigger] rest[i]).0 != key by {
                assert(rest[i] == made[i + 1]);
            }
        }
    }
}

/// Stamps made once and kept for every later frame of the same overlay,
/// plane and size.
pub struct Stamps {
    made: Vec<(StampKey, Option<Stamp>)>,
}

impl Stamps {
    /// The kept stamps, in the order they were kept.
    pub closed spec fn entries(&self) -> Seq<(StampKey, Option<Stamp>)> {
        self.made@
    }

    /// Every kept stamp covers the rectangle its key names, and no key is
    /// kept twice.
    pub closed spec fn wf(&self) -> bool {
        &&& forall|i: int|
            0 <= i < self.made@.len() ==> ((#[trigger] self.made@[i]).1 matches Some(s) ==> s.alpha@.len()
                == self.made@[i].0.2 * self.made@[i].0.3)
        &&& each_key_once(self.made@)
    }

    /// No stamps yet.
    pub fn new() -> (s: Stamps)
        ensures
            s.wf(),
            s.entries().len() == 0,
            each_key_once(s.entries()),
    {
        Stamps { made: Vec::new() }
    }

    /// How many stamps are kept.
    pub fn len(&self) -> (n: usize)
        ensures
            n == self.entries().len(),
    {
        self.made.len()
    }

    /// Looks `key` up.
    fn find(&self, key: StampKey) -> (r: Option<usize>)
        ensures
            r matches Some(i) ==> i < self.entries().len() && self.entries()[i as int].0 == key
                && kept_stamp(self.entries(), key) == Some(self.entries()[i as int].1),
            r is None ==> kept_stamp(self.entries(), key) is None,
    {
        let mut i: usize = 0;
        assert(self.made@.skip(0) =~= self.made@);
        while i < self.made.len()
            invariant
                0 <= i <= self.made@.len(),
                kept_stamp(self.made@, key) == kept_stamp(self.made@.skip(i as int), key),
            decreases self.made@.len() - i,
        {
            let entry_key = self.made[i].0;
            assert(self.made@.skip(i as int)[0] == self.made@[i as int]);
            assert(self.made@.skip(i as int).drop_first() =~= self.made@.skip(i + 1));
            if entry_key.0 == key.0 && entry_key.1 == key.1 && entry_key.2 == key.2 && entry_key.3
                == key.3 {
                return Some(i);
            }
            i = i + 1;
        }
        None
    }

    /// Keeps `stamp` under `key`, which has no stamp kept yet (as `apply`
    /// reports when it hands the key back), so that each key stays kept at
    /// most once.
    pub fn keep(&mut self, key: StampKey, stamp: Option<Stamp>)
        requires
            old(self).wf(),
            kept_stamp(old(self).entries(), key) is None,
            stamp matches Some(s) ==> s.alpha@.len() == key.2 * key.3,
        ensures
            final(self).wf(),
            final(self).entries() == old(self).entries().push((key, stamp)),
            each_key_once(final(self).entries()),
    {
        let ghost before = self.made@;
        proof {
            lemma_kept_stamp_none(before, key);
        }
        self.made.push((key, stamp));
        assert forall|i: int| 0 <= i < self.made@.len() implies ((#[trigger] self.made@[i]).1 matches Some(
            s,
        ) ==> s.alpha@.len() == self.made@[i].0.2 * self.made@[i].0.3) by {
            if i < before.len() {
                assert(self.made@[i] == before[i]);
            }
        }
        assert forall|i: int, j: int| 0 <= i < j < self.made@.len() implies (
        #[trigger] self.made@[i]).0 != (#[trigger] self.made@[j]).0 by {
            assert(self.made@[i] == before[i]);
            if j < before.len() {
                assert(self.made@[j] == before[j]);
            }
        }
    }

    /// Draws overlay number `index` from a kept stamp. A blur needs no stamp
    /// and is drawn at once. When no stamp is kept yet for this overlay,
    /// plane and size, nothing is drawn and the key is handed back: the
    /// caller makes the stamp, keeps it, and draws again.
    pub fn apply(&self, index: usize, plane: &mut Plane, rect: Rect, kind: &OverlayKind) -> (wanted:
        Option<StampKey>)
        requires
            self.wf(),
            drawable(old(plane)),
            rect.left + rect.width <= usize::MAX,
            rect.top + rect.height <= usize::MAX,
        ensures
            final(plane).stride == old(plane).stride,
            final(plane).width == old(plane).width,
            final(plane).height == old(plane).height,
            final(plane).channel == old(plane).channel,
            match clamped(rect, old(plane).width as int, old(plane).height as int) {
                None => wanted is None && final(plane).data@ == old(plane).data@,
                Some(c) => {
                    let key = (index, old(plane).channel, c.width, c.height);
                    match *kind {
                        OverlayKind::Blur { .. } => wanted is None && final(plane).data@ == applied(
                            old(plane).data@,
                            old(plane).stride as int,
                            old(plane).width as int,
                            old(plane).height as int,
                            rect,
                            *kind,
                            None,
                        ),
                        _ => match kept_stamp(self.entries(), key) {
                            None => wanted == Some(key) && final(plane).data@ == old(plane).data@,
                            Some(kept) => wanted is None && final(plane).data@ == applied(
                                old(plane).data@,
                                old(plane).stride as int,
                                old(plane).width as int,
                                old(plane).height as int,
                                rect,
                                *kind,
                                match kept {
                                    Some(s) => Some(&s),
                                    None => None,
                                },
                            ),
                        },
                    }
                },
            },
    {
        let cut = match clamp(rect, plane.width, plane.height) {
            Some(cut) => cut,
            None => {
                return None;
            },
        };
        match kind {
            OverlayKind::Blur { strength } => {
                blur(plane, cut, *strength);
                return None;
            },
            _ => {},
        }
        let key = (index, plane.channel, cut.width, cut.height);
        match self.find(key) {
            None => Some(key),
            Some(i) => {
                assert(self.made@[i as int].0 == key);
                match &self.made[i].1 {
                    Some(stamp) => {
                        assert(stamp.alpha@.len() == key.2 * key.3);
                        press(plane, cut, stamp);
                    },
                    None => {},
                }
                None
            },
        }
    }
}

impl Default for Stamps {
    fn default() -> (s: Stamps)
        ensures
            s.wf(),
            s.entries().len() == 0,
            each_key_once(s.entries()),
    {
        Stamps::new()
    }
}

/// Keeping a stamp under a key that has none yet makes that stamp the one
/// the key finds, so every later frame draws exactly what it draws; the
/// stamps kept under every other key stay as they were.
pub proof fn law_a_kept_stamp_is_the_one_drawn(
    entries: Seq<(StampKey, Option<Stamp>)>,
    key: StampKey,
    stamp: Option<Stamp>,
    other: StampKey,
)
    requires
        kept_stamp(entries, key) is None,
    ensures
        kept_stamp(entries.push((key, stamp)), key) == Some(stamp),
        other != key ==> kept_stamp(entries.push((key, stamp)), other) == kept_stamp(entries, other),
    decreases entries.len(),
{
    let pushed = entries.push((key, stamp));
    if entries.len() > 0 {
        let rest = entries.drop_first();
        assert(pushed.drop_first() =~= rest.push((key, stamp)));
        assert(pushed[0] == entries[0]);
        law_a_kept_stamp_is_the_one_drawn(rest, key, stamp, other);
        if entries[0].0 != other {
            assert(kept_stamp(pushed, other) == kept_stamp(rest.push((key, stamp)), other));
        }
    } else {
        assert(pushed.drop_first() =~= Seq::<(StampKey, Option<Stamp>)>::empty());
        assert(pushed[0] == (key, stamp));
        assert(kept_stamp(Seq::<(StampKey, Option<Stamp>)>::empty(), other) is None);
    }
}

proof fn lemma_passes_keep_outside(d: Seq<u8>, stride: int, rect: Rect, radius: int, n: nat)
    ensures
        blur_passes(d, stride, rect, radius, n).len() == d.len(),
        forall|i: int|
            0 <= i < d.len() && !inside(rect, stride, i) ==> #[trigger] blur_passes(
                d,
                stride,
                rect,
                radius,
                n,
            )[i] == d[i],
    decreases n,
{
    if n > 0 {
        lemma_passes_keep_outside(d, stride, rect, radius, (n - 1) as nat);
    }
}

/// Drawing an overlay never changes a value outside the part of its
/// rectangle that lies on the plane.
pub proof fn law_apply_leaves_the_rest_of_the_plane_alone(
    d: Seq<u8>,
    stride: int,
    width: int,
    height: int,
    rect: Rect,
    kind: OverlayKind,
    stamp: Option<&Stamp>,
    i: int,
)
    requires
        0 <= i < d.len(),
        match clamped(rect, width, height) {
            Some(c) => !inside(c, stride, i),
            None => true,
        },
    ensures
        applied(d, stride, width, height, rect, kind, stamp).len() == d.len(),
        applied(d, stride, width, height, rect, kind, stamp)[i] == d[i],
{
    match clamped(rect, width, height) {
        None => {},
        Some(c) => match kind {
            OverlayKind::Blur { strength } => {
                lemma_passes_keep_outside(d, stride, c, blur_radius(strength), BLUR_PASSES as nat);
            },
            _ => {},
        },
    }
}

proof fn lemma_total_constant(s: Seq<u8>, v: u8)
    requires
        forall|k: int| 0 <= k < s.len() ==> s[k] == v,
    ensures
        total(s) == v * s.len(),
    decreases s.len(),
{
    if s.len() > 0 {
        lemma_total_constant(s.drop_last(), v);
        assert(total(s) == v * (s.len() - 1) + v);
        assert(v * (s.len() - 1) + v == v * s.len()) by (nonlinear_arith);
    }
}

/// Smearing a line of one value leaves that value everywhere.
proof fn lemma_smear_constant(s: Seq<u8>, radius: int, v: u8)
    requires
        radius >= 0,
        forall|k: int| 0 <= k < s.len() ==> s[k] == v,
    ensures
        forall|x: int| 0 <= x < s.len() ==> #[trigger] smeared(s, radius)[x] == v,
{
    assert forall|x: int| 0 <= x < s.len() implies #[trigger] smeared(s, radius)[x] == v by {
        let (from, to) = window(x, radius, s.len() as int);
        let part = s.subrange(from, to);
        lemma_total_constant(part, v);
        let n = to - from;
        assert(n > 0);
        assert((v * n) / n == v) by (nonlinear_arith)
            requires
                n > 0,
        ;
    }
}

/// Where the rectangle lies in its rows.
pub open spec fn rect_in_rows(rect: Rect, stride: int, len: int) -> bool {
    &&& stride > 0
    &&& rect.left + rect.width <= stride
    &&& (rect.top + rect.height) * stride <= len
}

proof fn lemma_pass_keeps_flat(d: Seq<u8>, stride: int, rect: Rect, radius: int, v: u8)
    requires
        rect_in_rows(rect, stride, d.len() as int),
        radius >= 0,
        forall|i: int| 0 <= i < d.len() && inside(rect, stride, i) ==> #[trigger] d[i] == v,
    ensures
        forall|i: int|
            0 <= i < d.len() && inside(rect, stride, i) ==> #[trigger] blur_pass(d, stride, rect, radius)[i]
                == v,
{
    let rows = rows_smeared(d, stride, rect, radius);
    assert forall|i: int| 0 <= i < d.len() && inside(rect, stride, i) implies #[trigger] rows[i] == v by {
        let y = i / stride;
        let seg = row_segment(d, stride, rect, y);
        lemma_row_fits(
            y,
            rect.left + rect.width,
            rect.top + rect.height,
            rect.left + rect.width,
            stride,
            d.len() as int,
        );
        assert(seg.len() == rect.width);
        assert forall|k: int| 0 <= k < seg.len() implies seg[k] == v by {
            let at = y * stride + rect.left + k;
            lemma_position(y, rect.left + k, stride);
            lemma_position_fits(y, rect.left + k, rect.top + rect.height, rect.left + rect.width, stride, d.len() as int);
            assert(inside(rect, stride, at));
            assert(d[at] == v);
        }
        lemma_smear_constant(seg, radius, v);
    }
    let cols = columns_smeared(rows, stride, rect, radius);
    assert forall|i: int| 0 <= i < d.len() && inside(rect, stride, i) implies #[trigger] cols[i] == v by {
        let x = i % stride;
        let seg = column_segment(rows, stride, rect, x);
        assert forall|k: int| 0 <= k < seg.len() implies seg[k] == v by {
            let at = (rect.top + k) * stride + x;
            lemma_position(rect.top + k, x, stride);
            lemma_position_fits(rect.top + k, x, rect.top + rect.height, rect.left + rect.width, stride, d.len() as int);
            assert(inside(rect, stride, at));
            assert(rows[at] == v);
        }
        lemma_smear_constant(seg, radius, v);
    }
}

proof fn lemma_passes_keep_flat(d: Seq<u8>, stride: int, rect: Rect, radius: int, v: u8, n: nat)
    requires
        rect_in_rows(rect, stride, d.len() as int),
        radius >= 0,
        forall|i: int| 0 <= i < d.len() && inside(rect, stride, i) ==> #[trigger] d[i] == v,
    ensures
        blur_passes(d, stride, rect, radius, n).len() == d.len(),
        forall|i: int|
            0 <= i < d.len() && inside(rect, stride, i) ==> #[trigger] blur_passes(
                d,
                stride,
                rect,
                radius,
                n,
            )[i] == v,
    decreases n,
{
    if n > 0 {
        let before = blur_passes(d, stride, rect, radius, (n - 1) as nat);
        lemma_passes_keep_flat(d, stride, rect, radius, v, (n - 1) as nat);
        lemma_pass_keeps_flat(before, stride, rect, radius, v);
    }
}

/// A blur of a rectangle that holds one value everywhere keeps that value:
/// an average never leaves the range it came from.
pub proof fn law_blur_keeps_a_flat_area_flat(d: Seq<u8>, stride: int, rect: Rect, strength: u32, v: u8)
    requires
        rect_in_rows(rect, stride, d.len() as int),
        forall|i: int| 0 <= i < d.len() && inside(rect, stride, i) ==> #[trigger] d[i] == v,
    ensures
        forall|i: int|
            0 <= i < d.len() && inside(rect, stride, i) ==> #[trigger] blurred(d, stride, rect, strength)[i]
                == v,
{
    lemma_passes_keep_flat(d, stride, rect, blur_radius(strength), v, BLUR_PASSES as nat);
}

/// A stamp that covers its whole rectangle paints every pixel of it with
/// the stamp's value.
pub proof fn law_a_full_stamp_paints_flat(
    d: Seq<u8>,
    stride: int,
    rect: Rect,
    alpha: Seq<u8>,
    value: u8,
    i: int,
)
    requires
        0 <= i < d.len(),
        inside(rect, stride, i),
        alpha.len() == rect.width * rect.height,
        forall|k: int| 0 <= k < alpha.len() ==> alpha[k] == 255,
    ensures
        pressed(d, stride, rect, alpha, value)[i] == value,
{
    let y = i / stride - rect.top;
    let x = i % stride - rect.left;
    lemma_mul_commutes(rect.width as int, rect.height as int);
    lemma_position_fits(y, x, rect.height as int, rect.width as int, rect.width as int, alpha.len() as int);
}

} // verus!
