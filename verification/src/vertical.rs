//! The arithmetic of exporting a clip in another shape: which middle of the
//! picture is kept, which packets the decoder is fed, which frames are
//! kept, and how stretches cut out of the clip close up.

use vstd::prelude::*;

use crate::media::{Packet, PacketView};
use crate::protocol::{shape_ratio, ClipShape};

verus! {

/// The largest even number not above `x`, for `x >= 0`.
pub open spec fn even_floor(x: int) -> int {
    x - x % 2
}

/// Clearing the lowest bit of a non-negative number rounds it down to even.
proof fn lemma_clear_low_bit(x: i64)
    requires
        x >= 0,
    ensures
        (x & !1i64) as int == even_floor(x as int),
        (x & !1i64) >= 0,
{
    assert((x & !1i64) == x - x % 2 && (x & !1i64) >= 0) by (bit_vector)
        requires
            x >= 0,
    ;
}

/// How much `centre_crop` takes off the left, right, top and bottom of a
/// `width` by `height` picture to leave an even-sided middle with the ratio
/// `across`:`down`. When the full height would be too wide for the ratio,
/// the whole (even) width is kept and rows come off top and bottom;
/// otherwise the whole (even) height is kept and columns come off the sides.
/// Each first offset is rounded down to even.
pub open spec fn crop_of(width: int, height: int, across: int, down: int) -> (int, int, int, int) {
    if even_floor(height * across / down) >= width {
        let keep_width = even_floor(width);
        let keep_height = even_floor(
            if keep_width * down / across <= height {
                keep_width * down / across
            } else {
                height
            },
        );
        let spare = height - keep_height;
        let top = even_floor(spare / 2);
        (0, width - keep_width, top, spare - top)
    } else {
        let keep_height = even_floor(height);
        let keep_width = even_floor(keep_height * across / down);
        let spare = width - keep_width;
        let left = even_floor(spare / 2);
        (left, spare - left, 0, height - keep_height)
    }
}

/// The crop that cuts the centre `ratio.0`:`ratio.1` piece out of a `width`
/// by `height` picture: (left, right, top, bottom).
pub fn centre_crop(width: u32, height: u32, ratio: (i64, i64)) -> (r: (u32, u32, u32, u32))
    requires
        ratio.0 > 0,
        ratio.1 > 0,
        height * ratio.0 <= i64::MAX,
        width * ratio.1 <= i64::MAX,
    ensures
        (r.0 as int, r.1 as int, r.2 as int, r.3 as int) == crop_of(
            width as int,
            height as int,
            ratio.0 as int,
            ratio.1 as int,
        ),
{
    let (across, down) = ratio;
    let w = width as i64;
    let h = height as i64;
    proof {
        lemma_mul_nonneg(h as int, across as int);
        lemma_div_bound(h as int * across as int, down as int);
    }
    let wide = h * across / down;
    proof {
        lemma_clear_low_bit(wide);
    }
    if (wide & !1) >= w {
        let keep_width = w & !1;
        proof {
            lemma_clear_low_bit(w);
            lemma_mul_mono(keep_width as int, w as int, down as int);
            lemma_div_bound(keep_width as int * down as int, across as int);
        }
        let tall = keep_width * down / across;
        let capped = if tall <= h {
            tall
        } else {
            h
        };
        proof {
            lemma_clear_low_bit(capped);
        }
        let keep_height = capped & !1;
        let spare = h - keep_height;
        let half = spare / 2;
        proof {
            lemma_clear_low_bit(half);
        }
        let top = half & !1;
        return (0, (w - keep_width) as u32, top as u32, (spare - top) as u32);
    }
    proof {
        lemma_clear_low_bit(h);
    }
    let keep_height = h & !1;
    proof {
        lemma_mul_mono(keep_height as int, h as int, across as int);
        lemma_div_bound(keep_height as int * across as int, down as int);
        lemma_div_mono(keep_height as int * across as int, h as int * across as int, down as int);
    }
    let narrow = keep_height * across / down;
    proof {
        lemma_clear_low_bit(narrow);
    }
    let keep_width = narrow & !1;
    let spare = w - keep_width;
    let half = spare / 2;
    proof {
        lemma_clear_low_bit(half);
    }
    let left = half & !1;
    ((left as u32), (spare - left) as u32, 0, (h - keep_height) as u32)
}

proof fn lemma_mul_nonneg(a: int, b: int)
    requires
        a >= 0,
        b >= 0,
    ensures
        a * b >= 0,
{
    assert(a * b >= 0) by (nonlinear_arith)
        requires
            a >= 0,
            b >= 0,
    ;
}

proof fn lemma_mul_mono(a: int, b: int, c: int)
    requires
        0 <= a <= b,
        c >= 0,
    ensures
        0 <= a * c <= b * c,
{
    assert(0 <= a * c <= b * c) by (nonlinear_arith)
        requires
            0 <= a <= b,
            c >= 0,
    ;
}

proof fn lemma_div_bound(a: int, d: int)
    requires
        a >= 0,
        d > 0,
    ensures
        0 <= a / d <= a,
{
    assert(0 <= a / d <= a) by (nonlinear_arith)
        requires
            a >= 0,
            d > 0,
    ;
}

proof fn lemma_div_mono(a: int, b: int, d: int)
    requires
        0 <= a <= b,
        d > 0,
    ensures
        a / d <= b / d,
{
    assert(a / d <= b / d) by (nonlinear_arith)
        requires
            0 <= a <= b,
            d > 0,
    ;
}

/// The crop leaves an even-sided middle inside the picture: the left and top
/// offsets are even, what is left is even on both sides, the far side loses
/// at most three more than the near side (so the cut sits in the centre),
/// one of the two directions keeps everything but an odd last line, and a
/// picture already at the ratio with even sides loses nothing.
pub proof fn law_centre_crop_keeps_an_even_centred_middle(
    width: int,
    height: int,
    across: int,
    down: int,
)
    requires
        width >= 0,
        height >= 0,
        across > 0,
        down > 0,
    ensures
        ({
            let (left, right, top, bottom) = crop_of(width, height, across, down);
            &&& left >= 0 && right >= 0 && top >= 0 && bottom >= 0
            &&& left + right <= width && top + bottom <= height
            &&& left % 2 == 0 && top % 2 == 0
            &&& (width - left - right) % 2 == 0 && (height - top - bottom) % 2 == 0
            &&& 0 <= right - left <= 3 && 0 <= bottom - top <= 3
            &&& (left == 0 && right == width % 2) || (top == 0 && bottom == height % 2)
        }),
        width % 2 == 0 && height % 2 == 0 && width * down == height * across ==> crop_of(
            width,
            height,
            across,
            down,
        ) == (0int, 0int, 0int, 0int),
{
    lemma_mul_nonneg(height, across);
    lemma_div_bound(height * across, down);
    let wide = height * across / down;
    if even_floor(wide) >= width {
        let keep_width = even_floor(width);
        lemma_mul_mono(keep_width, width, down);
        lemma_div_bound(keep_width * down, across);
        let tall = keep_width * down / across;
        let capped = if tall <= height {
            tall
        } else {
            height
        };
        let keep_height = even_floor(capped);
        let spare = height - keep_height;
        assert(spare >= 0);
        if width % 2 == 0 && height % 2 == 0 && width * down == height * across {
            assert(wide == width) by (nonlinear_arith)
                requires
                    wide == height * across / down,
                    width * down == height * across,
                    down > 0,
            ;
            assert(tall == height) by (nonlinear_arith)
                requires
                    tall == keep_width * down / across,
                    keep_width == width,
                    width * down == height * across,
                    across > 0,
            ;
        }
    } else {
        let keep_height = even_floor(height);
        lemma_mul_mono(keep_height, height, across);
        lemma_div_mono(keep_height * across, height * across, down);
        lemma_div_bound(keep_height * across, down);
        let narrow = keep_height * across / down;
        assert(even_floor(narrow) <= even_floor(wide));
        if width % 2 == 0 && height % 2 == 0 && width * down == height * across {
            assert(wide == width) by (nonlinear_arith)
                requires
                    wide == height * across / down,
                    width * down == height * across,
                    down > 0,
            ;
        }
    }
}

/// The ratio a shape is cut to; `Original` keeps the picture's own.
pub fn crop_ratio(shape: ClipShape, width: u32, height: u32) -> (r: (i64, i64))
    ensures
        r == (match shape_ratio(shape) {
            Some(ratio) => ratio,
            None => (width as i64, height as i64),
        }),
{
    match shape.ratio() {
        Some(ratio) => ratio,
        None => (width as i64, height as i64),
    }
}

/// The ratio `shape` cuts a `width` by `height` picture to.
pub open spec fn ratio_for(shape: ClipShape, width: u32, height: u32) -> (i64, i64) {
    match shape_ratio(shape) {
        Some(ratio) => ratio,
        None => (width as i64, height as i64),
    }
}

/// How an export frames the picture: the crop taken off each side (left,
/// right, top, bottom) and the size of what is left.
#[derive(Debug, Clone, Copy)]
pub struct Framing {
    pub crop: (u32, u32, u32, u32),
    pub width: u32,
    pub height: u32,
}

/// Why a picture cannot be framed.
#[derive(Debug, Clone, Copy, PartialEq, Eq, Structural)]
pub enum FramingError {
    /// Cutting the picture to the ratio leaves nothing of it.
    NoMiddle,
}

/// Frames a `width` by `height` picture for an export in `shape`: the
/// centre crop to the shape's ratio (the picture's own for `Original`), and
/// what is left of it. Fails when nothing is left. The ratio's sides are
/// positive and its products with the picture's sides fit in an `i64`.
pub fn frame_for(shape: ClipShape, width: u32, height: u32) -> (r: Result<Framing, FramingError>)
    requires
        ratio_for(shape, width, height).0 > 0,
        ratio_for(shape, width, height).1 > 0,
        height * ratio_for(shape, width, height).0 <= i64::MAX,
        width * ratio_for(shape, width, height).1 <= i64::MAX,
    ensures
        ({
            let (across, down) = ratio_for(shape, width, height);
            let c = crop_of(width as int, height as int, across as int, down as int);
            let kept_width = width - c.0 - c.1;
            let kept_height = height - c.2 - c.3;
            match r {
                Ok(f) => {
                    &&& kept_width > 0 && kept_height > 0
                    &&& (f.crop.0 as int, f.crop.1 as int, f.crop.2 as int, f.crop.3 as int) == c
                    &&& f.width == kept_width
                    &&& f.height == kept_height
                },
                Err(e) => (kept_width == 0 || kept_height == 0) && e == FramingError::NoMiddle,
            }
        }),
{
    let ratio = crop_ratio(shape, width, height);
    let crop = centre_crop(width, height, ratio);
    proof {
        law_centre_crop_keeps_an_even_centred_middle(
            width as int,
            height as int,
            ratio.0 as int,
            ratio.1 as int,
        );
    }
    let (left, right, top, bottom) = crop;
    let kept_width = width - (left + right);
    let kept_height = height - (top + bottom);
    if kept_width == 0 || kept_height == 0 {
        return Err(FramingError::NoMiddle);
    }
    Ok(Framing { crop, width: kept_width, height: kept_height })
}

/// Index of the last keyframe at or before `start`, or 0 when there is none.
pub open spec fn decode_start(packets: Seq<Packet>, start: i64) -> int
    decreases packets.len(),
{
    if packets.len() == 0 {
        0
    } else if packets.last().keyframe && packets.last().pts <= start {
        packets.len() - 1
    } else {
        decode_start(packets.drop_last(), start)
    }
}

/// How many packets at the front of `packets` are decoded no later than `end`.
pub open spec fn decoded_by(packets: Seq<Packet>, end: i64) -> int
    decreases packets.len(),
{
    if packets.len() == 0 || packets[0].dts > end {
        0
    } else {
        1 + decoded_by(packets.drop_first(), end)
    }
}

proof fn lemma_decode_start_bounds(packets: Seq<Packet>, start: i64)
    ensures
        0 <= decode_start(packets, start) <= packets.len(),
        packets.len() > 0 ==> decode_start(packets, start) < packets.len(),
    decreases packets.len(),
{
    if packets.len() > 0 {
        lemma_decode_start_bounds(packets.drop_last(), start);
    }
}

proof fn lemma_decoded_by_bounds(packets: Seq<Packet>, end: i64)
    ensures
        0 <= decoded_by(packets, end) <= packets.len(),
        forall|i: int| 0 <= i < decoded_by(packets, end) ==> #[trigger] packets[i].dts <= end,
    decreases packets.len(),
{
    if packets.len() > 0 && packets[0].dts <= end {
        let rest = packets.drop_first();
        lemma_decoded_by_bounds(rest, end);
        assert forall|i: int| 0 <= i < decoded_by(packets, end) implies #[trigger] packets[i].dts
            <= end by {
            if i > 0 {
                assert(packets[i] == rest[i - 1]);
            }
        }
    }
}

/// The packets a decoder is fed run as far as they are decoded by the end:
/// every one counted is decoded no later than `end`, and the next one, if
/// there is one, is decoded after it.
pub proof fn law_feeding_stops_at_the_first_packet_decoded_too_late(packets: Seq<Packet>, end: i64)
    ensures
        0 <= decoded_by(packets, end) <= packets.len(),
        forall|i: int| 0 <= i < decoded_by(packets, end) ==> #[trigger] packets[i].dts <= end,
        decoded_by(packets, end) < packets.len() ==> packets[decoded_by(packets, end)].dts > end,
    decreases packets.len(),
{
    lemma_decoded_by_bounds(packets, end);
    if packets.len() > 0 && packets[0].dts <= end {
        let rest = packets.drop_first();
        law_feeding_stops_at_the_first_packet_decoded_too_late(rest, end);
        if decoded_by(rest, end) < rest.len() {
            assert(packets[decoded_by(packets, end)] == rest[decoded_by(rest, end)]);
        }
    }
}

proof fn lemma_decode_start_is_last_keyframe(packets: Seq<Packet>, start: i64)
    requires
        exists|i: int| 0 <= i < packets.len() && (#[trigger] packets[i]).keyframe && packets[i].pts
            <= start,
    ensures
        0 <= decode_start(packets, start) < packets.len(),
        packets[decode_start(packets, start)].keyframe,
        packets[decode_start(packets, start)].pts <= start,
        forall|j: int|
            decode_start(packets, start) < j < packets.len() ==> !((#[trigger] packets[j]).keyframe
                && packets[j].pts <= start),
    decreases packets.len(),
{
    let last = packets.len() - 1;
    assert(packets.last() == packets[last]);
    if !(packets[last].keyframe && packets[last].pts <= start) {
        let rest = packets.drop_last();
        let i = choose|i: int| 0 <= i < packets.len() && (#[trigger] packets[i]).keyframe
            && packets[i].pts <= start;
        assert(rest[i] == packets[i]);
        lemma_decode_start_is_last_keyframe(rest, start);
        let f = decode_start(rest, start);
        assert(rest[f] == packets[f]);
        assert forall|j: int| f < j < packets.len() implies !((#[trigger] packets[j]).keyframe
            && packets[j].pts <= start) by {
            if j < last {
                assert(rest[j] == packets[j]);
            }
        }
    }
}

/// When a keyframe is shown no later than the start of the window and
/// such keyframes are decoded no later than its end, the decoder is fed
/// from the last of them: the packets fed begin with that keyframe, and no
/// later packet is a keyframe shown by the start.
pub proof fn law_decoding_starts_at_the_keyframe_before_the_window(
    packets: Seq<Packet>,
    start: i64,
    end: i64,
)
    requires
        exists|i: int| 0 <= i < packets.len() && (#[trigger] packets[i]).keyframe && packets[i].pts
            <= start,
        forall|i: int|
            0 <= i < packets.len() && (#[trigger] packets[i]).keyframe && packets[i].pts <= start
                ==> packets[i].dts <= end,
    ensures
        ({
            let f = decode_start(packets, start);
            let n = decoded_by(packets.skip(f), end);
            &&& n > 0
            &&& packets.subrange(f, f + n)[0] == packets[f]
            &&& packets[f].keyframe
            &&& packets[f].pts <= start
            &&& forall|j: int| f < j < packets.len() ==> !((#[trigger] packets[j]).keyframe
                && packets[j].pts <= start)
        }),
{
    lemma_decode_start_is_last_keyframe(packets, start);
    let f = decode_start(packets, start);
    let rest = packets.skip(f);
    assert(rest[0] == packets[f]);
    lemma_decoded_by_bounds(rest.drop_first(), end);
    assert(decoded_by(rest, end) >= 1);
    lemma_decoded_by_bounds(rest, end);
}

/// Index of the last keyframe at or before `start`, or 0.
fn last_keyframe_before(packets: &[Packet], start: i64) -> (r: usize)
    ensures
        r == decode_start(packets@, start),
{
    let mut i: usize = packets.len();
    assert(packets@.take(packets@.len() as int) =~= packets@);
    while i > 0
        invariant
            0 <= i <= packets@.len(),
            decode_start(packets@, start) == decode_start(packets@.take(i as int), start),
        decreases i,
    {
        assert(packets@.take(i as int).drop_last() =~= packets@.take(i - 1));
        assert(packets@.take(i as int).last() == packets@[i - 1]);
        if packets[i - 1].keyframe && packets[i - 1].pts <= start {
            return i - 1;
        }
        i = i - 1;
    }
    assert(packets@.take(0) =~= Seq::<Packet>::empty());
    0
}

/// The packets a decoder has to be fed to produce every frame shown between
/// `start` and `end`: from the last keyframe at or before `start` (or the
/// first packet when there is none) up to, not including, the first packet
/// decoded after `end`.
pub fn to_decode(packets: &[Packet], start: i64, end: i64) -> (fed: &[Packet])
    ensures
        fed@ == packets@.subrange(
            decode_start(packets@, start),
            decode_start(packets@, start) + decoded_by(
                packets@.skip(decode_start(packets@, start)),
                end,
            ),
        ),
        forall|i: int| 0 <= i < fed@.len() ==> #[trigger] fed@[i].dts <= end,
{
    let first = last_keyframe_before(packets, start);
    proof {
        lemma_decode_start_bounds(packets@, start);
    }
    let mut count: usize = 0;
    while count < packets.len() - first && packets[first + count].dts <= end
        invariant
            first <= packets@.len(),
            first == decode_start(packets@, start),
            first + count <= packets@.len(),
            decoded_by(packets@.skip(first as int), end) == count + decoded_by(
                packets@.skip(first + count),
                end,
            ),
        decreases packets@.len() - first - count,
    {
        assert(packets@.skip(first + count).drop_first() =~= packets@.skip(first + count + 1));
        count = count + 1;
    }
    proof {
        let rest = packets@.skip(first + count);
        if first + count < packets@.len() {
            assert(rest[0] == packets@[first + count]);
        }
        assert(decoded_by(rest, end) == 0);
        lemma_decoded_by_bounds(packets@.skip(first as int), end);
    }
    let fed = &packets[first..first + count];
    assert forall|i: int| 0 <= i < fed@.len() implies #[trigger] fed@[i].dts <= end by {
        assert(fed@[i] == packets@.skip(first as int)[i]);
    }
    fed
}

/// A decoded frame is kept, at its own time, when it falls inside
/// `start..=end` and comes after the last frame kept; a frame that repeats
/// or goes back is dropped.
pub fn place(pts: i64, start: i64, end: i64, last: Option<i64>) -> (r: Option<i64>)
    ensures
        r == (if start <= pts <= end && (match last {
            Some(l) => pts > l,
            None => true,
        }) {
            Some(pts)
        } else {
            None
        }),
{
    let after = match last {
        Some(l) => pts > l,
        None => true,
    };
    if pts >= start && pts <= end && after {
        Some(pts)
    } else {
        None
    }
}

} // verus!
