use norisk_capture::gif::{box_scale, fit, gif_frame, FrameChoice, FrameError, Pacing, ScaleError, MAX_WIDTH};

#[test]
fn wide_clips_shrink_to_the_limit_and_keep_their_shape() {
    for (width, height) in [(1920, 1080), (2560, 1440), (3840, 2160), (1080, 1920)] {
        let (fitted_width, fitted_height) = fit(width, height);
        assert_eq!(fitted_width, MAX_WIDTH, "{width}x{height} kept its width");

        let wanted = height as f64 / width as f64;
        let got = fitted_height as f64 / fitted_width as f64;
        assert!(
            (wanted - got).abs() < 0.01,
            "{width}x{height} became {fitted_width}x{fitted_height}, which is a different shape",
        );
    }
}

#[test]
fn narrow_clips_are_left_alone() {
    assert_eq!(fit(320, 240), (320, 240));
    assert_eq!(fit(MAX_WIDTH, 225), (MAX_WIDTH, 225));
}

#[test]
fn a_clip_never_collapses_to_nothing() {
    let (width, height) = fit(4000, 1);
    assert!(width >= 1 && height >= 1, "got {width}x{height}");
}

#[test]
fn a_sizeless_clip_still_gets_a_pixel() {
    assert_eq!(fit(0, 0), (1, 1));
    assert_eq!(fit(1920, 1080), (400, 225));
}

#[test]
fn a_flat_plane_survives_scaling_unchanged() {
    let source = vec![200u8; 64 * 64];
    let mut out = Vec::new();
    box_scale(&source, 64, 64, 64, 16, 16, &mut out).unwrap();
    assert_eq!(out.len(), 16 * 16);
    assert!(out.iter().all(|&value| value == 200));
}

#[test]
fn scaling_averages_instead_of_dropping_pixels() {
    let mut source = vec![0u8; 4 * 4];
    source[0] = 255;
    source[1] = 255;
    source[4] = 255;
    source[5] = 255;

    let mut out = Vec::new();
    box_scale(&source, 4, 4, 4, 2, 2, &mut out).unwrap();
    assert_eq!(out, vec![255, 0, 0, 0]);
}

#[test]
fn scaling_reads_rows_at_the_stride_not_the_width() {
    let mut source = vec![9u8; 4 * 8];
    for row in 0..4 {
        for column in 0..4 {
            source[row * 8 + column] = 100;
        }
    }

    let mut out = Vec::new();
    box_scale(&source, 8, 4, 4, 2, 2, &mut out).unwrap();
    assert!(out.iter().all(|&value| value == 100), "padding leaked in: {out:?}");
}

#[test]
fn a_plane_can_grow_without_dividing_by_zero() {
    let source = vec![50u8; 2 * 2];
    let mut out = Vec::new();
    box_scale(&source, 2, 2, 2, 5, 5, &mut out).unwrap();
    assert_eq!(out.len(), 25);
    assert!(out.iter().all(|&value| value == 50));
}

#[test]
fn a_box_average_rounds_down() {
    let source = vec![0u8, 1, 1, 1];
    let mut out = Vec::new();
    box_scale(&source, 2, 2, 2, 1, 1, &mut out).unwrap();
    assert_eq!(out, vec![0], "3/4 rounds down to nothing");
}

#[test]
fn a_plane_that_is_not_there_or_has_short_rows_is_refused() {
    let mut out = vec![1u8, 2, 3];
    assert_eq!(box_scale(&[0u8; 10], 4, 4, 4, 2, 2, &mut out), Err(ScaleError::MissingPlane));
    assert_eq!(box_scale(&[], 4, 0, 4, 2, 2, &mut out), Err(ScaleError::MissingPlane));
    assert_eq!(box_scale(&[0u8; 64], 2, 4, 4, 2, 2, &mut out), Err(ScaleError::NarrowStride));
    assert_eq!(out, vec![1, 2, 3], "a refused plane still touched the output");
}

#[test]
fn a_gif_keeps_every_nth_frame_until_its_budget_is_spent() {
    let mut pacing = Pacing::new(5, 3);
    let mut choices = Vec::new();
    for _ in 0..20 {
        let choice = pacing.next();
        choices.push(choice);
        if choice == FrameChoice::Stop {
            break;
        }
    }
    let (w, s, stop) = (FrameChoice::Write, FrameChoice::Skip, FrameChoice::Stop);
    assert_eq!(
        choices,
        vec![w, s, s, s, s, w, s, s, s, s, w, stop]
    );
    assert_eq!(pacing.written(), 3);
    assert!(pacing.truncated());
}

#[test]
fn a_short_clip_is_not_marked_as_cut_short() {
    let mut pacing = Pacing::new(0, 100);
    for _ in 0..10 {
        assert_eq!(pacing.next(), FrameChoice::Write, "keeping every 0th frame keeps every frame");
    }
    assert_eq!(pacing.written(), 10);
    assert!(!pacing.truncated());
}

#[test]
fn a_picture_with_few_colours_keeps_them_in_its_palette() {
    let rgb = [255u8, 0, 0, 0, 0, 255, 255, 0, 0];
    let frame = gif_frame(3, 1, &rgb, 8).unwrap();
    assert_eq!((frame.width, frame.height, frame.delay), (3, 1, 8));
    assert_eq!(frame.indices.len(), 3);
    assert_eq!(frame.palette.len(), 6);
    for (pixel, &index) in rgb.chunks(3).zip(&frame.indices) {
        let at = index as usize * 3;
        assert_eq!(&frame.palette[at..at + 3], pixel, "a pixel lost its colour");
    }
}

#[test]
fn a_picture_of_the_wrong_size_is_refused_rather_than_panicking() {
    assert_eq!(gif_frame(2, 2, &[0u8; 11], 8).unwrap_err(), FrameError::WrongSize);
    assert_eq!(gif_frame(0, 5, &[0u8; 3], 8).unwrap_err(), FrameError::WrongSize);
    assert!(gif_frame(0, 5, &[], 8).unwrap().indices.is_empty());
}

#[test]
fn a_scaled_pixel_stays_between_the_least_and_greatest_of_its_box() {
    let source: Vec<u8> = (0..6 * 6).map(|i| (i * 7 % 251) as u8).collect();
    let mut out = Vec::new();
    box_scale(&source, 6, 6, 6, 4, 3, &mut out).unwrap();
    for y in 0..3usize {
        for x in 0..4usize {
            let (top, bottom) = (y * 6 / 3, ((y + 1) * 6).div_ceil(3));
            let (left, right) = (x * 6 / 4, ((x + 1) * 6).div_ceil(4));
            let covered: Vec<u8> =
                (top..bottom).flat_map(|r| (left..right).map(move |c| (r, c))).map(|(r, c)| source[r * 6 + c]).collect();
            let value = out[y * 4 + x];
            assert!(
                *covered.iter().min().unwrap() <= value && value <= *covered.iter().max().unwrap(),
                "pixel {x},{y} left its box"
            );
        }
    }
}
