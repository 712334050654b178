use norisk_capture::overlay::{apply, clamp, halve, smear, Channel, Plane, Rect, Stamp, Stamps, BLUR_PASSES};
use norisk_capture::protocol::{Corner, OverlayKind};

/// Studio-range luma of black, the value a black box paints.
const BLACK: u8 = 16;

fn checkerboard(width: usize, height: usize) -> Vec<u8> {
    (0..width * height).map(|i| if (i / 4 + i / (width * 4)) % 2 == 0 { 20 } else { 235 }).collect()
}

fn spread(data: &[u8], stride: usize, rect: Rect) -> f64 {
    let mut values = Vec::new();
    for y in rect.top..rect.top + rect.height {
        for x in rect.left..rect.left + rect.width {
            values.push(data[y * stride + x] as f64);
        }
    }
    let mean = values.iter().sum::<f64>() / values.len() as f64;
    (values.iter().map(|v| (v - mean).powi(2)).sum::<f64>() / values.len() as f64).sqrt()
}

fn plane(data: Vec<u8>, stride: usize, width: usize, height: usize) -> Plane {
    Plane { data, stride, width, height, channel: Channel::Luma }
}

/// The stamp a box of one value makes over a `width` by `height` rectangle.
fn solid(width: usize, height: usize, value: u8) -> Stamp {
    Stamp { alpha: vec![u8::MAX; width * height], value }
}

/// A stamp with every kind of coverage in it: clear, partial and full.
fn shaded(width: usize, height: usize, value: u8) -> Stamp {
    Stamp { alpha: (0..width * height).map(|i| ((i * 37) % 256) as u8).collect(), value }
}

#[test]
fn blurring_flattens_the_detail_it_covers() {
    let (width, height) = (64, 64);
    let data = checkerboard(width, height);
    let rect = Rect { left: 16, top: 16, width: 32, height: 32 };

    let before = spread(&data, width, rect);
    let mut plane = plane(data, width, width, height);
    apply(&mut plane, rect, &OverlayKind::Blur { strength: 6 }, None);
    let after = spread(&plane.data, width, rect);

    assert!(after < before / 4.0, "detail survived: {before:.1} before, {after:.1} after");
}

fn blur_the_slow_way(data: &mut [u8], stride: usize, rect: Rect, radius: usize) {
    let mut row = vec![0u8; rect.width];
    let mut column = vec![0u8; rect.height];
    for _ in 0..BLUR_PASSES {
        for y in rect.top..rect.top + rect.height {
            let start = y * stride + rect.left;
            row.copy_from_slice(&data[start..start + rect.width]);
            for x in 0..rect.width {
                let from = x.saturating_sub(radius);
                let to = (x + radius + 1).min(rect.width);
                let sum: u32 = row[from..to].iter().map(|v| *v as u32).sum();
                data[start + x] = (sum / (to - from) as u32) as u8;
            }
        }
        for x in rect.left..rect.left + rect.width {
            for (index, slot) in column.iter_mut().enumerate() {
                *slot = data[(rect.top + index) * stride + x];
            }
            for y in 0..rect.height {
                let from = y.saturating_sub(radius);
                let to = (y + radius + 1).min(rect.height);
                let sum: u32 = column[from..to].iter().map(|v| *v as u32).sum();
                data[(rect.top + y) * stride + x] = (sum / (to - from) as u32) as u8;
            }
        }
    }
}

#[test]
fn the_running_sum_blur_matches_the_straightforward_one_pixel_for_pixel() {
    let (width, height, stride) = (57, 41, 64);
    let mut seed = 0x9E37_79B9_7F4A_7C15u64;
    let noise: Vec<u8> = (0..stride * height)
        .map(|_| {
            seed ^= seed << 13;
            seed ^= seed >> 7;
            seed ^= seed << 17;
            (seed >> 56) as u8
        })
        .collect();

    for strength in [1, 2, 5, 12, 30, 64] {
        for rect in [
            Rect { left: 0, top: 0, width, height },
            Rect { left: 3, top: 7, width: 20, height: 9 },
            Rect { left: 50, top: 30, width: 7, height: 11 },
        ] {
            let mut fast = plane(noise.clone(), stride, width, height);
            apply(&mut fast, rect, &OverlayKind::Blur { strength }, None);

            let mut slow = noise.clone();
            blur_the_slow_way(&mut slow, stride, rect, strength as usize);

            assert_eq!(fast.data, slow, "strength {strength}, {rect:?} came out different");
        }
    }
}

#[test]
fn a_kept_stamp_draws_exactly_what_a_fresh_one_draws_frame_after_frame() {
    let (width, height) = (96, 64);
    let rect = Rect { left: 10, top: 8, width: 70, height: 40 };
    let kinds = [
        OverlayKind::Box { colour: 0xff3b30 },
        OverlayKind::Arrow { colour: 0x0a84ff, thickness: 4, towards: Corner::TopRight },
        OverlayKind::Text { content: "CLIP".into(), size: 28, colour: 0xffcc00 },
    ];

    for kind in kinds {
        let make = |w: usize, h: usize| match kind {
            OverlayKind::Box { .. } => solid(w, h, 81),
            _ => shaded(w, h, 210),
        };
        let mut stamps = Stamps::default();
        for frame in 0..4u64 {
            let mut seed = 0x2545_F491_4F6C_DD1D ^ (frame + 1);
            let picture: Vec<u8> = (0..width * height)
                .map(|_| {
                    seed ^= seed << 13;
                    seed ^= seed >> 7;
                    seed ^= seed << 17;
                    (seed >> 56) as u8
                })
                .collect();

            let mut kept = plane(picture.clone(), width, width, height);
            if let Some(key) = stamps.apply(0, &mut kept, rect, &kind) {
                assert_eq!(frame, 0, "{kind:?} asked for a new stamp on frame {frame}");
                assert_eq!(kept.data, picture, "{kind:?} drew without a stamp");
                stamps.keep(key, Some(make(key.2, key.3)));
                assert_eq!(stamps.apply(0, &mut kept, rect, &kind), None);
            }

            let mut fresh = plane(picture.clone(), width, width, height);
            let stamp = make(rect.width, rect.height);
            apply(&mut fresh, rect, &kind, Some(&stamp));

            assert_eq!(kept.data, fresh.data, "{kind:?} drifted on frame {frame}");
        }
        assert_eq!(stamps.len(), 1, "{kind:?} was rebuilt instead of kept");
    }
}

#[test]
fn a_stamp_is_kept_apart_for_each_overlay_plane_and_size() {
    let mut stamps = Stamps::new();
    let kind = OverlayKind::Box { colour: 0 };
    let rect = Rect { left: 0, top: 0, width: 4, height: 4 };
    let mut luma = plane(vec![0; 64], 8, 8, 8);
    let key = stamps.apply(3, &mut luma, rect, &kind).unwrap();
    assert_eq!(key, (3, Channel::Luma, 4, 4));
    stamps.keep(key, Some(solid(4, 4, BLACK)));

    let mut blue = Plane { data: vec![0; 64], stride: 8, width: 8, height: 8, channel: Channel::Blue };
    assert_eq!(stamps.apply(3, &mut blue, rect, &kind), Some((3, Channel::Blue, 4, 4)));
    assert_eq!(stamps.apply(4, &mut luma, rect, &kind), Some((4, Channel::Luma, 4, 4)));
    assert_eq!(stamps.apply(3, &mut luma, Rect { left: 6, top: 6, width: 4, height: 4 }, &kind), Some((3, Channel::Luma, 2, 2)));
    assert_eq!(stamps.apply(3, &mut luma, rect, &kind), None);
    assert_eq!(luma.data[0], BLACK);
}

#[test]
fn blurring_leaves_everything_outside_the_rectangle_alone() {
    let (width, height) = (64, 64);
    let original = checkerboard(width, height);
    let rect = Rect { left: 16, top: 16, width: 32, height: 32 };

    let mut plane = plane(original.clone(), width, width, height);
    apply(&mut plane, rect, &OverlayKind::Blur { strength: 6 }, None);

    for y in 0..height {
        for x in 0..width {
            let inside = x >= rect.left && x < rect.left + rect.width && y >= rect.top && y < rect.top + rect.height;
            if !inside {
                assert_eq!(plane.data[y * width + x], original[y * width + x], "pixel {x},{y} outside the rectangle changed");
            }
        }
    }
}

#[test]
fn blurring_reads_rows_at_the_stride_not_the_width() {
    let (width, height, stride) = (32, 32, 48);
    let mut data = vec![7u8; stride * height];
    for y in 0..height {
        for x in 0..width {
            data[y * stride + x] = if x % 2 == 0 { 0 } else { 255 };
        }
    }

    let rect = Rect { left: 4, top: 4, width: 16, height: 16 };
    let mut plane = plane(data, stride, width, height);
    apply(&mut plane, rect, &OverlayKind::Blur { strength: 4 }, None);

    for y in 0..height {
        for x in width..stride {
            assert_eq!(plane.data[y * stride + x], 7, "padding at {x},{y} was touched");
        }
    }
}

#[test]
fn a_blurred_average_stays_inside_the_range_it_came_from() {
    let (width, height) = (32, 32);
    let data = vec![200u8; width * height];
    let rect = Rect { left: 0, top: 0, width, height };

    let mut plane = plane(data, width, width, height);
    apply(&mut plane, rect, &OverlayKind::Blur { strength: 10 }, None);

    assert!(plane.data.iter().all(|v| *v == 200), "a flat area changed value");
}

#[test]
fn a_box_paints_its_rectangle_flat_and_nothing_else() {
    let (width, height) = (32, 32);
    let original = checkerboard(width, height);
    let rect = Rect { left: 8, top: 8, width: 10, height: 6 };

    let mut plane = plane(original.clone(), width, width, height);
    let stamp = solid(rect.width, rect.height, BLACK);
    apply(&mut plane, rect, &OverlayKind::Box { colour: 0x000000 }, Some(&stamp));

    for y in rect.top..rect.top + rect.height {
        for x in rect.left..rect.left + rect.width {
            assert_eq!(plane.data[y * width + x], 16, "pixel {x},{y} was not filled");
        }
    }
    assert_eq!(plane.data[0], original[0], "a pixel outside the box changed");
    assert_eq!(plane.data[width * 31 + 31], original[width * 31 + 31]);
}

#[test]
fn a_box_stays_inside_a_padded_plane() {
    let (width, height, stride) = (16, 16, 24);
    let rect = Rect { left: 2, top: 2, width: 12, height: 12 };

    let mut plane = plane(vec![9u8; stride * height], stride, width, height);
    let stamp = solid(rect.width, rect.height, 102);
    apply(&mut plane, rect, &OverlayKind::Box { colour: 0x646464 }, Some(&stamp));

    for y in 0..height {
        for x in width..stride {
            assert_eq!(plane.data[y * stride + x], 9, "padding at {x},{y} was filled");
        }
    }
}

#[test]
fn a_half_covering_stamp_blends_towards_its_value() {
    let rect = Rect { left: 0, top: 0, width: 3, height: 1 };
    let mut plane = plane(vec![100, 100, 100, 7], 4, 3, 1);
    let stamp = Stamp { alpha: vec![0, 128, 255], value: 200 };
    apply(&mut plane, rect, &OverlayKind::Arrow { colour: 0, thickness: 1, towards: Corner::TopLeft }, Some(&stamp));
    assert_eq!(plane.data, vec![100, ((100u32 * 127 + 200 * 128 + 127) / 255) as u8, 200, 7]);
}

#[test]
fn text_that_draws_nothing_leaves_the_plane_alone() {
    let original = checkerboard(16, 16);
    let mut plane = plane(original.clone(), 16, 16, 16);
    let kind = OverlayKind::Text { content: "   ".into(), size: 20, colour: 0xffffff };
    apply(&mut plane, Rect { left: 0, top: 0, width: 16, height: 16 }, &kind, None);
    assert_eq!(plane.data, original);
}

#[test]
fn chroma_planes_get_the_matching_half_sized_rectangle() {
    let rect = Rect { left: 480, top: 540, width: 960, height: 270 };
    let chroma = halve(rect);
    assert_eq!(chroma, Rect { left: 240, top: 270, width: 480, height: 135 });
}

#[test]
fn a_rectangle_reaching_past_the_plane_is_cut_to_it_instead_of_panicking() {
    let (width, height) = (32, 32);
    let rect = Rect { left: 24, top: 24, width: 99, height: 99 };

    let mut plane = plane(checkerboard(width, height), width, width, height);
    apply(&mut plane, rect, &OverlayKind::Blur { strength: 4 }, None);

    assert_eq!(plane.data.len(), width * height);
    assert_eq!(clamp(rect, width, height), Some(Rect { left: 24, top: 24, width: 8, height: 8 }));
}

#[test]
fn a_rectangle_wholly_outside_the_plane_does_nothing() {
    let (width, height) = (32, 32);
    let original = checkerboard(width, height);
    let rect = Rect { left: 40, top: 40, width: 8, height: 8 };

    let mut plane = plane(original.clone(), width, width, height);
    apply(&mut plane, rect, &OverlayKind::Blur { strength: 4 }, None);

    assert_eq!(plane.data, original);
    assert_eq!(clamp(rect, width, height), None);
}

#[test]
fn a_thin_rectangle_never_halves_away_to_nothing() {
    let chroma = halve(Rect { left: 0, top: 0, width: 1, height: 1 });
    assert!(chroma.width >= 1 && chroma.height >= 1);
}

#[test]
fn smearing_averages_each_value_with_its_neighbours() {
    let mut line = vec![0u8, 0, 90, 0, 0];
    let mut prefix = Vec::new();
    smear(&mut line, 1, &mut prefix);
    assert_eq!(line, vec![0, 30, 30, 30, 0]);
}
