use norisk_capture::media::{
    assemble_clip, decode_order, stream_label, AudioFormat, AudioSource, AudioTrack, Packet, ReadError, TrackInfo,
    TIME_BASE_DEN,
};
use norisk_capture::protocol::ClipCodec;
use norisk_capture::trim::{
    as_recorded, as_recorded_mix, build_audio, clip_bytes, cut, cut_video, last_shown, mix_offset, mix_start, remix_wanted,
    start_at_keyframe, windowed_audio, CutError, TrackTiming,
};

fn frame(pts: i64, keyframe: bool) -> Packet {
    Packet { data: vec![0; 10], pts, dts: pts, keyframe }
}

fn ten_seconds() -> Vec<Packet> {
    (0..600)
        .map(|i| {
            let pts = i * (TIME_BASE_DEN / 60);
            frame(pts, i % 120 == 0)
        })
        .collect()
}

/// A packet as plain values, to compare packets by.
fn seen(packets: &[Packet]) -> Vec<(i64, i64, bool, Vec<u8>)> {
    packets.iter().map(|p| (p.pts, p.dts, p.keyframe, p.data.clone())).collect()
}

#[test]
fn the_copied_data_begins_at_a_keyframe() {
    let packets = ten_seconds();
    let want_start = 5 * TIME_BASE_DEN; // 5.0 s, mid group

    let begin = start_at_keyframe(&packets, want_start, 0);

    assert_eq!(begin, 4 * TIME_BASE_DEN, "5 s should fall back to the keyframe at 4 s");
}

#[test]
fn a_start_on_a_keyframe_needs_no_lead_in() {
    let packets = ten_seconds();
    let want_start = 6 * TIME_BASE_DEN;

    let begin = start_at_keyframe(&packets, want_start, 0);

    assert_eq!(begin, want_start);
}

#[test]
fn the_end_is_exact() {
    let packets = ten_seconds();
    let want_end = 7 * TIME_BASE_DEN + TIME_BASE_DEN / 60;

    let kept = cut_video(&packets, 0, want_end);
    let last = kept.last().unwrap().pts;

    assert!((want_end - last) < TIME_BASE_DEN / 60, "the last kept frame should sit within one frame of the request");
}

#[test]
fn a_start_before_every_keyframe_copies_from_the_clips_own_start() {
    let packets: Vec<Packet> = (1..10).map(|i| frame(i * 1_000, i == 5)).collect();
    assert_eq!(start_at_keyframe(&packets, 2_000, 77), 77);
    assert_eq!(start_at_keyframe(&[], 2_000, 77), 77);
}

#[test]
fn a_cut_plays_from_the_later_of_the_request_and_the_keyframe() {
    let packets = ten_seconds();
    let second = TIME_BASE_DEN;

    let made = cut(&packets, 0, 5 * second, 7 * second).unwrap();

    assert_eq!(made.begin, 4 * second);
    assert_eq!(made.playback_start_pts, 5 * second);
    assert_eq!(made.end_pts, 7 * second);
    assert_eq!(made.video.first().unwrap().pts, 4 * second);
    assert!(made.video[0].keyframe, "the copy has to start on a keyframe");
    assert_eq!(made.video.len(), 3 * 60 + 1);
}

#[test]
fn a_range_with_no_frames_is_refused() {
    let packets = ten_seconds();
    let second = TIME_BASE_DEN;
    assert_eq!(cut(&packets, 0, 5 * second, 3 * second).unwrap_err(), CutError::NoFrames);
    assert_eq!(cut(&[], 0, 0, second).unwrap_err(), CutError::NoFrames);
}

fn source(label: &str, packets: usize) -> AudioSource {
    AudioSource {
        format: AudioFormat { sample_rate: 48_000, channels: 2, extradata: vec![0x12, 0x10], label: label.to_string() },
        packets: (0..packets as i64).map(|i| frame(i * 1_920, true)).collect(),
    }
}

/// How the application turns a track's offset in seconds into ticks.
fn offset_ticks(seconds: f64) -> i64 {
    if !seconds.is_finite() {
        return 0;
    }
    (seconds * TIME_BASE_DEN as f64) as i64
}

/// How the application turns a track's window in seconds into ticks of the
/// clip, whose own start is `origin`.
fn window_ticks(seconds: Option<f64>, origin: i64) -> Option<i64> {
    seconds.filter(|s| s.is_finite()).map(|s| origin.saturating_add((s * TIME_BASE_DEN as f64) as i64))
}

fn level(stream: u32) -> TrackTiming {
    TrackTiming { stream, offset: 0, from: None, to: None }
}

fn offset(stream: u32, offset_seconds: f64) -> TrackTiming {
    TrackTiming { offset: offset_ticks(offset_seconds), ..level(stream) }
}

fn window(stream: u32, start: Option<f64>, end: Option<f64>) -> TrackTiming {
    TrackTiming { from: window_ticks(start, 0), to: window_ticks(end, 0), ..level(stream) }
}

const PACKET: i64 = 1_920;

fn as_seconds(ticks: i64) -> f64 {
    ticks as f64 / TIME_BASE_DEN as f64
}

#[test]
fn a_zero_offset_leaves_the_packets_exactly_where_no_offset_leaves_them() {
    let sources = vec![source("Mix", 10), source("Game", 10)];
    let end = 9 * PACKET;

    let without = windowed_audio(&sources, &[], 0, end);
    let zero = windowed_audio(&sources, &[offset(0, 0.0), offset(1, 0.0)], 0, end);

    for (index, (a, b)) in without.iter().zip(&zero).enumerate() {
        assert_eq!(seen(&a.packets), seen(&b.packets), "track {index} moved");
        assert_eq!(seen(&a.packets), seen(&sources[index].packets), "track {index} was rewritten");
    }
}

#[test]
fn a_positive_offset_moves_that_track_later_by_the_ticks_it_asks_for() {
    let sources = vec![source("Mix", 10)];

    let shifted = windowed_audio(&sources, &[offset(0, 0.25)], 0, 100 * PACKET);

    let ticks = TIME_BASE_DEN / 4;
    assert_eq!(shifted[0].packets[0].pts, sources[0].packets[0].pts + ticks);
    assert_eq!(shifted[0].packets[0].dts, sources[0].packets[0].dts + ticks);
}

#[test]
fn a_negative_offset_never_emits_a_timestamp_before_the_cut() {
    let begin = 0;
    let sources = vec![source("Mix", 10)];

    let shifted = windowed_audio(&sources, &[offset(0, -0.05)], begin, 9 * PACKET);

    assert!(!shifted[0].packets.is_empty(), "the whole track was thrown away");
    assert!(
        shifted[0].packets.iter().all(|p| p.pts >= begin && p.dts >= begin),
        "a packet landed before the start of the cut"
    );
}

#[test]
fn an_offset_moves_only_the_track_it_names() {
    let sources = vec![source("Mix", 10), source("Game", 10), source("Microphone", 10)];
    let end = 100 * PACKET;

    let shifted = windowed_audio(&sources, &[offset(1, 0.1)], 0, end);

    assert_eq!(seen(&shifted[0].packets), seen(&sources[0].packets));
    assert_eq!(seen(&shifted[2].packets), seen(&sources[2].packets));
    assert_eq!(shifted[1].packets[0].pts, sources[1].packets[0].pts + TIME_BASE_DEN / 10);
}

#[test]
fn an_offset_bigger_than_the_clip_empties_that_track_rather_than_panicking() {
    let sources = vec![source("Mix", 10)];
    let end = 9 * PACKET;

    for seconds in [600.0, -600.0, f64::MAX, f64::MIN] {
        let shifted = windowed_audio(&sources, &[offset(0, seconds)], 0, end);
        assert!(shifted[0].packets.is_empty(), "{seconds} should push the whole track out of the range");
    }
}

#[test]
fn an_offset_that_runs_past_the_end_is_cut_instead_of_growing_the_file() {
    let sources = vec![source("Mix", 10)];
    let end = 9 * PACKET;

    let kept = windowed_audio(&sources, &[offset(0, 0.0)], 0, end)[0].packets.len();
    let shifted = windowed_audio(&sources, &[offset(0, as_seconds(PACKET * 3))], 0, end);

    assert_eq!(shifted[0].packets.len(), kept - 3);
    assert!(shifted[0].packets.iter().all(|p| p.pts <= end));
}

#[test]
fn a_track_with_no_window_of_its_own_follows_the_clip() {
    let sources = vec![source("Mix", 10), source("Game", 10)];
    let end = 9 * PACKET;

    let without = windowed_audio(&sources, &[], 0, end);
    let empty_window = windowed_audio(&sources, &[window(0, None, None), window(1, None, None)], 0, end);

    for (index, (a, b)) in without.iter().zip(&empty_window).enumerate() {
        assert_eq!(seen(&a.packets), seen(&b.packets), "track {index} moved");
        assert_eq!(seen(&a.packets), seen(&sources[index].packets), "track {index} was rewritten");
    }
}

#[test]
fn a_later_start_of_its_own_drops_that_tracks_earlier_packets() {
    let sources = vec![source("Mix", 10)];
    let end = 9 * PACKET;

    let cut = windowed_audio(&sources, &[window(0, Some(as_seconds(3 * PACKET)), None)], 0, end);

    assert_eq!(seen(&cut[0].packets), seen(&sources[0].packets[3..]));
}

#[test]
fn an_earlier_end_of_its_own_drops_that_tracks_later_packets() {
    let sources = vec![source("Mix", 10)];
    let end = 9 * PACKET;

    let cut = windowed_audio(&sources, &[window(0, None, Some(as_seconds(5 * PACKET)))], 0, end);

    assert_eq!(seen(&cut[0].packets), seen(&sources[0].packets[..=5]));
}

#[test]
fn a_window_wider_than_the_clip_is_clamped_rather_than_resurrecting_audio() {
    let sources = vec![source("Mix", 10)];
    let (begin, end) = (2 * PACKET, 6 * PACKET);

    let clip = windowed_audio(&sources, &[], begin, end);
    let greedy = windowed_audio(&sources, &[window(0, Some(-100.0), Some(100.0))], begin, end);

    assert_eq!(seen(&greedy[0].packets), seen(&clip[0].packets));
    assert!(greedy[0].packets.iter().all(|p| p.pts >= begin && p.pts <= end));
}

#[test]
fn a_window_on_one_track_leaves_the_other_tracks_alone() {
    let sources = vec![source("Mix", 10), source("Game", 10), source("Microphone", 10)];
    let end = 9 * PACKET;

    let cut = windowed_audio(
        &sources,
        &[window(1, Some(as_seconds(4 * PACKET)), Some(as_seconds(6 * PACKET)))],
        0,
        end,
    );

    assert_eq!(seen(&cut[0].packets), seen(&sources[0].packets));
    assert_eq!(seen(&cut[2].packets), seen(&sources[2].packets));
    assert_eq!(seen(&cut[1].packets), seen(&sources[1].packets[4..=6]));
}

#[test]
fn a_window_that_makes_no_sense_empties_the_track_rather_than_panicking() {
    let sources = vec![source("Mix", 10)];
    let end = 9 * PACKET;

    let backwards = windowed_audio(
        &sources,
        &[window(0, Some(as_seconds(8 * PACKET)), Some(as_seconds(2 * PACKET)))],
        0,
        end,
    );
    assert!(backwards[0].packets.is_empty());

    let enormous = windowed_audio(&sources, &[window(0, Some(f64::MAX), Some(f64::MIN))], 0, end);
    assert!(enormous[0].packets.is_empty());

    for nonsense in [f64::NAN, f64::INFINITY, f64::NEG_INFINITY] {
        let ignored = windowed_audio(&sources, &[window(0, Some(nonsense), Some(nonsense))], 0, end);
        assert_eq!(
            seen(&ignored[0].packets),
            seen(&sources[0].packets),
            "{nonsense} should count as no window at all"
        );
    }
}

#[test]
fn a_window_is_read_in_the_finished_clip_so_it_measures_the_track_after_its_shift() {
    let sources = vec![source("Mix", 10)];
    let end = 9 * PACKET;

    let both = windowed_audio(
        &sources,
        &[TrackTiming {
            offset: offset_ticks(as_seconds(2 * PACKET)),
            from: window_ticks(Some(as_seconds(4 * PACKET)), 0),
            to: None,
            ..level(0)
        }],
        0,
        end,
    );

    assert_eq!(both[0].packets.len(), 6);
    assert_eq!(both[0].packets[0].pts, 4 * PACKET);
    assert_eq!(both[0].packets[0].dts, 4 * PACKET);
    assert!(both[0].packets.iter().all(|p| p.pts >= 0 && p.pts <= end));
}

#[test]
fn the_first_timing_that_names_a_track_is_the_one_used() {
    let sources = vec![source("Mix", 10)];
    let shifted = windowed_audio(&sources, &[offset(0, as_seconds(PACKET)), offset(0, 0.0)], 0, 100 * PACKET);
    assert_eq!(shifted[0].packets[0].pts, PACKET);
    assert_eq!(shifted[0].format.label, "Mix");
    assert_eq!(shifted[0].format.extradata, vec![0x12, 0x10]);
}

#[test]
fn a_decode_time_pushed_past_the_range_stops_at_its_edge() {
    let mut early = source("Mix", 1);
    early.packets[0].dts = i64::MIN + 5;
    let shifted = windowed_audio(&[early], &[TrackTiming { offset: -100, ..level(0) }], -1_000, 1_000);
    assert_eq!(shifted[0].packets[0].pts, -100);
    assert_eq!(shifted[0].packets[0].dts, i64::MIN);
}

fn labels(tracks: &[AudioTrack]) -> Vec<&str> {
    tracks.iter().map(|t| t.label.as_str()).collect()
}

#[test]
fn leaving_the_faders_alone_copies_the_recorded_mix() {
    let audio = vec![source("Mix", 10), source("Game", 10), source("Microphone", 10)];

    assert!(!remix_wanted(&audio, false), "levels that change nothing must not rebuild the mix");
    let built = build_audio(&audio, None);

    assert_eq!(built.len(), 1, "a trimmed clip carries one audio track");
    assert_eq!(built[0].label, "Mix");
    assert_eq!(
        seen(&built[0].packets),
        seen(&audio[0].packets),
        "an untouched balance must not be re-encoded: the packets should be the recorded ones, byte for byte"
    );
}

#[test]
fn levels_all_at_a_hundred_are_not_a_change() {
    let audio = vec![source("Mix", 10), source("Game", 10), source("Microphone", 10)];

    let built = build_audio(&audio, None);

    assert!(!remix_wanted(&audio, false));
    assert_eq!(seen(&built[0].packets), seen(&audio[0].packets), "nothing was moved");
}

#[test]
fn a_clip_without_separate_tracks_keeps_its_mix_rather_than_failing() {
    let audio = vec![source("Mix", 10)];

    assert!(!remix_wanted(&audio, true), "a clip with only its mix has nothing to rebuild it from");
    let built = build_audio(&audio, None);

    assert_eq!(built.len(), 1);
    assert_eq!(seen(&built[0].packets), seen(&audio[0].packets));
}

#[test]
fn a_silent_clip_stays_silent() {
    assert!(!remix_wanted(&[], true));
    assert!(build_audio(&[], None).is_empty());
    let rebuilt = AudioTrack { sample_rate: 48_000, channels: 2, extradata: vec![1], packets: vec![frame(0, true)], label: "Mix".into() };
    assert!(build_audio(&[], Some(rebuilt)).is_empty());
}

#[test]
fn a_track_the_range_missed_is_left_out_entirely() {
    let audio = vec![source("Mix", 0)];
    assert!(build_audio(&audio, None).is_empty());
}

#[test]
fn a_rebuilt_mix_replaces_the_recorded_one() {
    let audio = vec![source("Mix", 10), source("Game", 10)];
    assert!(remix_wanted(&audio, true));
    let rebuilt = AudioTrack {
        sample_rate: 48_000,
        channels: 2,
        extradata: vec![7, 7],
        packets: vec![frame(0, true), frame(960, true)],
        label: "Rebuilt".into(),
    };
    let built = build_audio(&audio, Some(rebuilt));
    assert_eq!(labels(&built), vec!["Rebuilt"]);
    assert_eq!(built[0].packets.len(), 2);
}

#[test]
fn the_recorded_mix_is_the_first_source() {
    let audio = vec![source("Mix", 3), source("Game", 5)];
    let as_is = as_recorded(&audio[1]);
    assert_eq!(labels(&as_is), vec!["Game"]);
    assert_eq!((as_is[0].sample_rate, as_is[0].channels), (48_000, 2));
    assert_eq!(as_is[0].packets.len(), 5);

    let info = TrackInfo { width: 1920, height: 1080, fps: 60, time_base_den: TIME_BASE_DEN, codec: ClipCodec::H264, extradata: vec![0; 4] };
    let clip = assemble_clip(info, ten_seconds(), audio, None).unwrap();
    assert_eq!(labels(&as_recorded_mix(&clip)), vec!["Mix"]);
}

#[test]
fn a_clip_file_counts_the_bytes_of_every_packet() {
    let video = ten_seconds();
    let audio = as_recorded(&source("Mix", 7));
    assert_eq!(clip_bytes(&video, &audio), 600 * 10 + 7 * 10);
    assert_eq!(clip_bytes(&[], &[]), 0);
}

#[test]
fn a_clip_file_ends_at_its_latest_packet() {
    let video = vec![frame(100, true), frame(300, false), frame(200, false)];
    let mut late = source("Mix", 1);
    late.packets[0].pts = 1_000;
    let audio = as_recorded(&late);
    assert_eq!(last_shown(&video, &[], 5), 300);
    assert_eq!(last_shown(&video, &audio, 5), 1_000);
    assert_eq!(last_shown(&[], &[], 5), 5);
}

#[test]
fn packets_read_out_of_order_are_put_in_decode_order() {
    let mut packets = Vec::new();
    for (pts, dts, tag) in [(30, 3, 0u8), (10, 1, 1), (20, 2, 2), (11, 1, 3), (0, 0, 4)] {
        packets.push(Packet { data: vec![tag], pts, dts, keyframe: false });
    }
    let ordered = decode_order(packets);
    let order: Vec<(i64, u8)> = ordered.iter().map(|p| (p.dts, p.data[0])).collect();
    assert_eq!(order, vec![(0, 4), (1, 1), (1, 3), (2, 2), (3, 0)], "equal decode times kept their order");
}

#[test]
fn a_clip_starts_where_its_file_says_or_else_at_its_first_frame() {
    let info = || TrackInfo { width: 1280, height: 720, fps: 30, time_base_den: TIME_BASE_DEN, codec: ClipCodec::H265, extradata: vec![1] };
    let video = vec![frame(3_000, false), frame(0, true), frame(1_500, false)];
    let video = video.into_iter().map(|mut p| {
        p.dts = p.pts;
        p
    });
    let clip = assemble_clip(info(), video.collect(), vec![source("Mix", 2)], None).unwrap();
    assert_eq!(clip.first_pts, 0);
    assert_eq!(clip.video.iter().map(|p| p.pts).collect::<Vec<_>>(), vec![0, 1_500, 3_000]);

    let given = assemble_clip(info(), ten_seconds(), Vec::new(), Some(-90)).unwrap();
    assert_eq!(given.first_pts, -90);

    assert_eq!(assemble_clip(info(), Vec::new(), Vec::new(), None).unwrap_err(), ReadError::NoVideo);
}

#[test]
fn a_rebuilt_mix_starts_at_the_earliest_track() {
    let late = || {
        let mut track = source("Game", 3);
        for packet in track.packets.iter_mut() {
            packet.pts += 5_000;
        }
        track
    };
    let empty = || source("Microphone", 0);
    let early = || source("Music", 2);
    assert_eq!(mix_start(&[late(), empty(), early()]), Some(0));
    assert_eq!(mix_start(&[late(), empty()]), Some(5_000));
    assert_eq!(mix_start(&[empty()]), None);
    assert_eq!(mix_start(&[]), None);
}

#[test]
fn a_track_lands_in_the_mix_by_its_distance_from_the_start() {
    assert_eq!(mix_offset(TIME_BASE_DEN, 0, 48_000, 2), 96_000, "one second in is a second of stereo samples");
    assert_eq!(mix_offset(TIME_BASE_DEN / 2 + 100, 100, 48_000, 2), 48_000);
    assert_eq!(mix_offset(0, 500, 48_000, 2), 0, "a track before the start lands at it");
    assert_eq!(mix_offset(1, 0, 48_000, 2), 1, "part of a sample rounds down");
}

#[test]
fn an_audio_stream_is_labelled_by_its_title_or_else_its_handler() {
    assert_eq!(stream_label(Some("Game"), Some("SoundHandler")), "Game");
    assert_eq!(stream_label(Some(""), Some("Microphone")), "Microphone");
    assert_eq!(stream_label(Some("SoundHandler"), Some("Core Media Audio Handler")), "");
    assert_eq!(stream_label(None, Some("Mix")), "Mix");
    assert_eq!(stream_label(None, None), "");
    assert_eq!(stream_label(Some("Handle"), None), "Handle", "only the whole word marks a placeholder");
}
