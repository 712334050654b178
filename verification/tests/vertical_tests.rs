use norisk_capture::gaps::{hushed, CutTicks, Gaps};
use norisk_capture::media::{Packet, TIME_BASE_DEN};
use norisk_capture::protocol::ClipShape;
use norisk_capture::vertical::{centre_crop, crop_ratio, frame_for, place, to_decode, FramingError};

type Ratio = (i64, i64);

fn nine_by_sixteen() -> Ratio {
    ClipShape::Vertical.ratio().unwrap()
}

fn cropped(width: u32, height: u32) -> (u32, u32) {
    cropped_to(width, height, nine_by_sixteen())
}

fn cropped_to(width: u32, height: u32, ratio: Ratio) -> (u32, u32) {
    let (left, right, top, bottom) = centre_crop(width, height, ratio);
    (width - left - right, height - top - bottom)
}

#[test]
fn a_landscape_clip_loses_its_sides() {
    assert_eq!(cropped(1920, 1080), (606, 1080));
    assert_eq!(cropped(2560, 1440), (810, 1440));
}

#[test]
fn every_shape_cuts_to_its_own_ratio() {
    for shape in [ClipShape::Vertical, ClipShape::Square, ClipShape::Wide] {
        let ratio = shape.ratio().unwrap();
        for (width, height) in [(1920, 1080), (2560, 1440), (1280, 720)] {
            let (w, h) = cropped_to(width, height, ratio);
            let got = w as f64 / h as f64;
            let wanted = ratio.0 as f64 / ratio.1 as f64;
            assert!(
                (got - wanted).abs() < 0.02,
                "{shape:?}: {width}x{height} became {w}x{h}, ratio {got:.4} not {wanted:.4}",
            );
            assert!(w <= width && h <= height, "{shape:?} grew the picture");
        }
    }
}

#[test]
fn original_keeps_the_source_size() {
    for (width, height) in [(1920, 1080), (2560, 1440), (1080, 1920), (1000, 1000)] {
        let ratio = crop_ratio(ClipShape::Original, width, height);
        assert_eq!(centre_crop(width, height, ratio), (0, 0, 0, 0), "{width}x{height} should lose nothing");
        assert_eq!(cropped_to(width, height, ratio), (width, height));
    }
}

#[test]
fn a_square_cut_of_a_wide_clip_keeps_the_full_height() {
    let (w, h) = cropped_to(1920, 1080, (1, 1));
    assert_eq!(h, 1080);
    assert_eq!(w, 1080);
}

#[test]
fn what_is_left_is_nine_by_sixteen() {
    for (width, height) in [(1920, 1080), (2560, 1440), (3840, 2160), (1280, 720)] {
        let (w, h) = cropped(width, height);
        let ratio = w as f64 / h as f64;
        let wanted = nine_by_sixteen().0 as f64 / nine_by_sixteen().1 as f64;
        assert!((ratio - wanted).abs() < 0.01, "{width}x{height} cropped to {w}x{h}, ratio {ratio:.4}");
    }
}

#[test]
fn the_cut_is_centred() {
    let (left, right, _, _) = centre_crop(1920, 1080, nine_by_sixteen());
    assert!(left.abs_diff(right) <= 2, "the column should sit in the middle: {left} vs {right}");
}

#[test]
fn every_offset_is_even() {
    for (width, height) in [(1920, 1080), (2559, 1439), (1281, 721), (3840, 2160)] {
        let (left, _, top, _) = centre_crop(width, height, nine_by_sixteen());
        assert_eq!(left % 2, 0, "{width}x{height} crops {left} from the left");
        assert_eq!(top % 2, 0, "{width}x{height} crops {top} from the top");
    }
}

#[test]
fn what_is_left_has_even_sides() {
    for (width, height) in [
        (1920, 1080),
        (2560, 1440),
        (3840, 2160),
        (1280, 720),
        (2559, 1439),
        (1281, 721),
        (1080, 2400),
        (1000, 1000),
    ] {
        let (w, h) = cropped(width, height);
        assert_eq!(w % 2, 0, "{width}x{height} left a {w}-wide column");
        assert_eq!(h % 2, 0, "{width}x{height} left a {h}-tall column");
    }
}

#[test]
fn a_clip_already_taller_than_wide_loses_its_top_and_bottom() {
    let (left, right, top, bottom) = centre_crop(1080, 2400, nine_by_sixteen());
    assert_eq!((left, right), (0, 0), "nothing should come off the sides");
    assert!(top > 0 && bottom > 0);

    let (w, h) = cropped(1080, 2400);
    assert_eq!(w, 1080);
    assert_eq!(h, 1920, "1080 wide at 9:16 is 1920 tall");
}

#[test]
fn a_clip_already_at_the_right_shape_is_left_alone() {
    assert_eq!(centre_crop(1080, 1920, nine_by_sixteen()), (0, 0, 0, 0));
}

#[test]
fn a_square_clip_loses_its_sides() {
    let (w, h) = cropped(1000, 1000);
    assert!(w < h, "a square has to become taller than it is wide: {w}x{h}");
}

#[test]
fn a_framing_reports_the_crop_and_what_is_left() {
    let framing = frame_for(ClipShape::Vertical, 1920, 1080).unwrap();
    assert_eq!(framing.crop, centre_crop(1920, 1080, (9, 16)));
    assert_eq!((framing.width, framing.height), (606, 1080));

    let original = frame_for(ClipShape::Original, 1280, 720).unwrap();
    assert_eq!(original.crop, (0, 0, 0, 0));
    assert_eq!((original.width, original.height), (1280, 720));
}

#[test]
fn a_picture_too_thin_to_hold_the_shape_has_no_middle() {
    assert_eq!(frame_for(ClipShape::Vertical, 1, 1080).unwrap_err(), FramingError::NoMiddle);
    assert_eq!(frame_for(ClipShape::Square, 1920, 1).unwrap_err(), FramingError::NoMiddle);
}

const STEP: i64 = TIME_BASE_DEN / 60;

fn packet(pts: i64, dts: i64, keyframe: bool) -> Packet {
    Packet { data: vec![0; 4], pts, dts, keyframe }
}

fn kept(times: &[i64], start: i64, end: i64) -> Vec<i64> {
    let mut last = None;
    times
        .iter()
        .filter_map(|&pts| {
            let placed = place(pts, start, end, last);
            last = placed.or(last);
            placed
        })
        .collect()
}

fn uneven() -> Vec<i64> {
    let gaps = [1_200, 1_700, 1_400, 2_300, 1_500, 900, 1_600, 1_800];
    (0..600)
        .scan(0i64, |at, i| {
            let now = *at;
            *at += gaps[i % gaps.len()];
            Some(now)
        })
        .collect()
}

#[test]
fn kept_frames_keep_their_own_times_inside_the_window() {
    let times = uneven();
    let (start, end) = (100_000, 500_000);

    let out = kept(&times, start, end);
    let inside: Vec<i64> = times.iter().copied().filter(|pts| (start..=end).contains(pts)).collect();

    assert_eq!(out, inside, "a frame was moved, lost or invented");
    assert!(out.iter().all(|pts| (start..=end).contains(pts)));
    assert!(out.windows(2).all(|pair| pair[0] < pair[1]));
}

#[test]
fn uneven_frames_span_what_the_source_spans_not_count_times_interval() {
    let times = uneven();
    let (start, end) = (0, *times.last().unwrap());

    let out = kept(&times, start, end);
    let span = out.last().unwrap() - out.first().unwrap();
    let counted = (out.len() as i64 - 1) * STEP;

    assert_eq!(span, times.last().unwrap() - times.first().unwrap());
    assert_ne!(span, counted, "the test spacing is too even to tell real times from a counter");
}

#[test]
fn a_frame_that_repeats_or_goes_back_is_dropped_rather_than_sent_twice() {
    let times = [0, STEP, STEP, STEP - 100, 2 * STEP, 3 * STEP];

    assert_eq!(kept(&times, 0, 10 * STEP), vec![0, STEP, 2 * STEP, 3 * STEP]);
}

#[test]
fn a_window_that_makes_no_sense_keeps_nothing_and_does_not_panic() {
    let times = uneven();

    assert!(kept(&times, 500_000, 100_000).is_empty());
    assert!(kept(&times, i64::MAX, i64::MAX).is_empty());
    assert!(kept(&times, i64::MIN, i64::MIN).is_empty());
    assert!(kept(&[], 0, 10).is_empty());
    assert_eq!(kept(&times, i64::MIN, i64::MAX), times);
    assert!(kept(&[i64::MIN, i64::MAX], 0, 10).is_empty());

    assert!(to_decode(&[], 0, 10).is_empty());
    let packets: Vec<Packet> = times.iter().map(|&t| packet(t, t, t == 0)).collect();
    assert!(to_decode(&packets, 500_000, 100_000).iter().all(|p| p.dts <= 100_000));
    assert!(to_decode(&packets, i64::MIN, i64::MIN).is_empty());
    assert_eq!(to_decode(&packets, i64::MAX, i64::MAX).len(), packets.len());
}

#[test]
fn decoding_starts_at_the_keyframe_before_the_window_and_stops_after_it() {
    let packets: Vec<Packet> = (0..600).map(|i| packet(i * STEP, i * STEP, i % 120 == 0)).collect();
    let second = TIME_BASE_DEN;
    let (start, end) = (5 * second + STEP / 2, 7 * second);

    let fed = to_decode(&packets, start, end);

    assert!(fed[0].keyframe);
    assert_eq!(fed[0].pts, 4 * second);
    assert_eq!(fed.last().unwrap().pts, end);
    assert!(packets
        .iter()
        .filter(|p| (start..=end).contains(&p.pts))
        .all(|p| fed.iter().any(|f| f.pts == p.pts && f.dts == p.dts && f.keyframe == p.keyframe)));
}

#[test]
fn a_window_before_the_first_keyframe_decodes_from_the_first_packet() {
    let packets: Vec<Packet> = (0..60).map(|i| packet(i * STEP, i * STEP, i == 10)).collect();

    let fed = to_decode(&packets, 3 * STEP, 20 * STEP);

    assert_eq!(fed[0].pts, 0);
    assert_eq!(fed.len(), 21);
}

#[test]
fn reordered_frames_up_to_the_end_are_all_fed_to_the_decoder() {
    let order = [0, 3, 1, 2, 6, 4, 5, 9, 7, 8];
    let packets: Vec<Packet> = order
        .iter()
        .enumerate()
        .map(|(i, &shown)| packet(shown * STEP, (i as i64 - 1) * STEP, i == 0))
        .collect();
    let end = 4 * STEP;

    let fed = to_decode(&packets, 0, end);

    for shown in 0..=4 {
        assert!(
            fed.iter().any(|p| p.pts == shown * STEP),
            "frame {shown} is shown before the end but was never decoded"
        );
    }
    assert!(fed.iter().all(|p| p.dts <= end));
}

/// Seconds after `origin` in the engine's time base, as the application
/// turns the editor's seconds into ticks; `None` for a time that is not a
/// number.
fn at(origin: i64, seconds: f64) -> Option<i64> {
    if seconds.is_finite() {
        Some(origin.saturating_add((seconds * TIME_BASE_DEN as f64) as i64))
    } else {
        None
    }
}

fn spans(origin: i64, seconds: &[(f64, f64)]) -> Vec<(i64, i64)> {
    seconds
        .iter()
        .filter_map(|&(from, to)| Some((at(origin, from)?, at(origin, to)?)))
        .collect()
}

fn cuts(origin: i64, seconds: &[(u32, f64, f64)]) -> Vec<CutTicks> {
    seconds
        .iter()
        .filter_map(|&(stream, from, to)| Some(CutTicks { stream, from: at(origin, from)?, to: at(origin, to)? }))
        .collect()
}

#[test]
fn a_removed_stretch_is_dropped_and_what_follows_closes_the_gap() {
    let second = TIME_BASE_DEN;
    let gaps = Gaps::new(&spans(0, &[(2.0, 3.0)]), 0, 10 * second);
    let times: Vec<i64> = (0..600).map(|i| i * STEP).collect();

    let out: Vec<i64> = times.iter().filter_map(|&pts| gaps.shift(pts)).collect();

    assert_eq!(out.len(), times.len() - 60, "one second of 60 fps frames should go");
    assert!(out.windows(2).all(|pair| pair[1] - pair[0] == STEP), "the join left a hole or an overlap");
    assert_eq!(gaps.shift(2 * second - STEP), Some(2 * second - STEP), "a frame before the cut moved");
    assert_eq!(gaps.shift(2 * second), None, "the cut's first frame stayed");
    assert_eq!(gaps.shift(3 * second - STEP), None, "the cut's last frame stayed");
    assert_eq!(gaps.shift(3 * second), Some(2 * second), "the first frame after the cut did not close the gap");
}

#[test]
fn removed_stretches_merge_and_stay_inside_the_kept_clip() {
    let second = TIME_BASE_DEN;
    let origin = 5 * second;
    let gaps = Gaps::new(
        &spans(origin, &[(6.0, 7.0), (1.0, 1.5), (1.25, 2.0), (-3.0, 0.5), (9.0, 99.0)]),
        origin,
        origin + 8 * second,
    );

    assert_eq!(
        gaps.spans(),
        &vec![
            (origin, origin + second / 2),
            (origin + second, origin + 2 * second),
            (origin + 6 * second, origin + 7 * second),
        ],
    );
    assert_eq!(gaps.shift(origin + 3 * second), Some(origin + 3 * second / 2));
}

#[test]
fn a_removed_stretch_that_makes_no_sense_removes_nothing() {
    let gaps = Gaps::new(
        &spans(0, &[(f64::NAN, 2.0), (3.0, f64::INFINITY), (4.0, 3.0), (1.0, 1.0)]),
        0,
        10 * TIME_BASE_DEN,
    );

    assert!(gaps.spans().is_empty());
    assert_eq!(gaps.shift(12_345), Some(12_345));
}

#[test]
fn a_muted_stretch_follows_the_sound_when_an_earlier_stretch_is_cut_out() {
    let second = TIME_BASE_DEN;
    let gaps = Gaps::new(&spans(0, &[(1.0, 2.0)]), 0, 10 * second);

    let after = hushed(&cuts(0, &[(2, 4.0, 5.0), (1, 4.0, 5.0)]), 2, &gaps);
    assert_eq!(after, vec![(3 * second, 4 * second)], "the muted stretch did not move back with the sound");

    let across = hushed(&cuts(0, &[(2, 1.5, 3.0)]), 2, &gaps);
    assert_eq!(across, vec![(second, 2 * second)], "a stretch reaching into the cut was not trimmed to it");

    assert!(hushed(&cuts(0, &[(2, 1.2, 1.8)]), 2, &gaps).is_empty(), "a stretch inside the cut still muted something");
    assert!(hushed(&cuts(0, &[(2, f64::NAN, 3.0)]), 2, &gaps).is_empty());
}

#[test]
fn sound_loses_the_same_stretch_as_the_picture() {
    let second = TIME_BASE_DEN;
    let gaps = Gaps::new(&spans(0, &[(1.0, 2.0)]), 0, 5 * second);
    let frame = second / 50;
    let sound: Vec<Packet> = (0..250).map(|i| packet(i * frame, i * frame, true)).collect();

    let closed = gaps.close(&sound);

    assert_eq!(closed.len(), 200);
    assert!(closed.iter().all(|p| p.pts == p.dts));
    assert!(closed.windows(2).all(|pair| pair[1].pts - pair[0].pts == frame));
}

#[test]
fn a_squeezed_time_never_moves_later_and_keeps_its_order() {
    let second = TIME_BASE_DEN;
    let gaps = Gaps::new(&[(second, 2 * second), (4 * second, 5 * second)], 0, 10 * second);
    let times: Vec<i64> = (0..600).map(|i| i * STEP).collect();
    let squeezed: Vec<i64> = times.iter().map(|&t| gaps.squeeze(t)).collect();

    assert!(squeezed.iter().zip(&times).all(|(s, t)| s <= t));
    assert!(squeezed.windows(2).all(|pair| pair[0] <= pair[1]));
    assert_eq!(gaps.squeeze(6 * second), 4 * second, "two seconds were cut out before six");
    assert_eq!(gaps.squeeze(4 * second + 10), 3 * second, "a time inside a cut lands where the cut began");
}
