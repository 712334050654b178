use norisk_capture::protocol::{
    default_volume, end_line, line_body, pipe_name, CaptureState, ClipCodec, ClipReason, ClipShape,
    Corner, EncoderCapability, EncoderPreference,
};
use norisk_capture::selection::select_encoder;

fn cap(codec: ClipCodec, encoder: EncoderPreference, hardware: bool, available: bool) -> EncoderCapability {
    EncoderCapability { codec, encoder, available, hardware, detail: None, driver_too_old: false }
}

fn machine(usable: &[(ClipCodec, EncoderPreference)]) -> Vec<EncoderCapability> {
    let mut matrix = Vec::new();
    for codec in ClipCodec::all() {
        for (encoder, hardware) in [
            (EncoderPreference::Nvenc, true),
            (EncoderPreference::Amf, true),
            (EncoderPreference::QuickSync, true),
            (EncoderPreference::Software, false),
        ] {
            matrix.push(cap(codec, encoder, hardware, usable.contains(&(codec, encoder))));
        }
    }
    matrix
}

fn modern_nvidia() -> Vec<EncoderCapability> {
    machine(&[
        (ClipCodec::H264, EncoderPreference::Nvenc),
        (ClipCodec::H264, EncoderPreference::Software),
        (ClipCodec::H265, EncoderPreference::Nvenc),
        (ClipCodec::H265, EncoderPreference::Software),
        (ClipCodec::Av1, EncoderPreference::Nvenc),
        (ClipCodec::Av1, EncoderPreference::Software),
    ])
}

#[test]
fn an_available_choice_is_used_as_asked() {
    for codec in ClipCodec::all() {
        assert_eq!(
            select_encoder(codec, EncoderPreference::Nvenc, &modern_nvidia()),
            Some((codec, EncoderPreference::Nvenc)),
            "{codec:?}"
        );
    }
}

#[test]
fn a_codec_the_gpu_cannot_do_falls_back_to_hardware_not_to_the_processor() {
    let older_card = machine(&[
        (ClipCodec::H264, EncoderPreference::Nvenc),
        (ClipCodec::H264, EncoderPreference::Software),
        (ClipCodec::H265, EncoderPreference::Nvenc),
        (ClipCodec::H265, EncoderPreference::Software),
        (ClipCodec::Av1, EncoderPreference::Software),
    ]);

    assert_eq!(
        select_encoder(ClipCodec::Av1, EncoderPreference::Auto, &older_card),
        Some((ClipCodec::H264, EncoderPreference::Nvenc))
    );
}

#[test]
fn the_hardware_fallback_prefers_h264() {
    let card = machine(&[(ClipCodec::H264, EncoderPreference::Amf), (ClipCodec::H265, EncoderPreference::Amf)]);

    assert_eq!(
        select_encoder(ClipCodec::Av1, EncoderPreference::Auto, &card),
        Some((ClipCodec::H264, EncoderPreference::Amf)),
    );
}

#[test]
fn a_machine_without_hardware_records_h264_on_the_processor_because_it_is_the_lightest() {
    let cpu_only = machine(&[
        (ClipCodec::H264, EncoderPreference::Software),
        (ClipCodec::H265, EncoderPreference::Software),
    ]);

    assert_eq!(
        select_encoder(ClipCodec::H265, EncoderPreference::Auto, &cpu_only),
        Some((ClipCodec::H264, EncoderPreference::Software))
    );
}

#[test]
fn a_machine_without_hardware_or_h264_still_records_what_it_can() {
    let cpu_only = machine(&[(ClipCodec::H265, EncoderPreference::Software)]);

    assert_eq!(
        select_encoder(ClipCodec::Av1, EncoderPreference::Auto, &cpu_only),
        Some((ClipCodec::H265, EncoderPreference::Software))
    );
}

#[test]
fn an_explicit_processor_choice_is_honoured_over_hardware() {
    assert_eq!(
        select_encoder(ClipCodec::H265, EncoderPreference::Software, &modern_nvidia()),
        Some((ClipCodec::H265, EncoderPreference::Software))
    );
}

#[test]
fn a_vendor_that_is_not_present_falls_back_within_the_codec() {
    assert_eq!(
        select_encoder(ClipCodec::H264, EncoderPreference::Amf, &modern_nvidia()),
        Some((ClipCodec::H264, EncoderPreference::Nvenc))
    );
}

#[test]
fn a_machine_that_can_encode_nothing_selects_nothing() {
    assert_eq!(select_encoder(ClipCodec::H264, EncoderPreference::Auto, &machine(&[])), None);
    assert_eq!(select_encoder(ClipCodec::H264, EncoderPreference::Auto, &[]), None);
}

#[test]
fn an_impossible_processor_request_still_records() {
    let gpu_only = machine(&[(ClipCodec::H264, EncoderPreference::Nvenc)]);

    assert_eq!(
        select_encoder(ClipCodec::H264, EncoderPreference::Software, &gpu_only),
        Some((ClipCodec::H264, EncoderPreference::Nvenc))
    );
}

#[test]
fn an_unavailable_line_is_never_picked() {
    let mut lines = machine(&[(ClipCodec::H264, EncoderPreference::Software)]);
    lines.push(cap(ClipCodec::H265, EncoderPreference::Nvenc, true, false));
    assert_eq!(
        select_encoder(ClipCodec::H265, EncoderPreference::Nvenc, &lines),
        Some((ClipCodec::H264, EncoderPreference::Software))
    );
}

#[test]
fn clip_reason_produces_a_filename_safe_slug() {
    assert_eq!(ClipReason::Manual.slug(), "clip");
    assert_eq!(ClipReason::Event("PLAYER_KILL".into()).slug(), "player_kill");
    assert_eq!(ClipReason::Event("bed/destroy!".into()).slug(), "bed_destroy_");
}

#[test]
fn a_slug_keeps_one_character_for_each_one_of_the_event() {
    assert_eq!(ClipReason::Event("Zäh 9".into()).slug(), "z_h_9");
    assert_eq!(ClipReason::Event(String::new()).slug(), "");
}

#[test]
fn auto_takes_the_best_available() {
    let available = [EncoderPreference::Amf, EncoderPreference::Software];
    assert_eq!(EncoderPreference::Auto.resolve(&available), Some(EncoderPreference::Amf));
}

#[test]
fn an_explicit_choice_is_honoured_when_usable() {
    let available = [EncoderPreference::Nvenc, EncoderPreference::Software];
    assert_eq!(EncoderPreference::Software.resolve(&available), Some(EncoderPreference::Software));
}

#[test]
fn an_unusable_choice_falls_back_instead_of_failing() {
    let available = [EncoderPreference::Amf];
    assert_eq!(EncoderPreference::Nvenc.resolve(&available), Some(EncoderPreference::Amf));
}

#[test]
fn nothing_available_resolves_to_nothing() {
    assert_eq!(EncoderPreference::Auto.resolve(&[]), None);
    assert_eq!(EncoderPreference::Nvenc.resolve(&[]), None);
}

#[test]
fn only_buffering_allows_saving() {
    assert!(CaptureState::Buffering.can_save());
    assert!(!CaptureState::BlockedFullscreenExclusive.can_save());
    assert!(!CaptureState::Idle.can_save());
    assert!(!CaptureState::Paused.can_save());
}

#[test]
fn the_pipe_is_named_after_the_session() {
    assert_eq!(pipe_name("abc-123"), r"\\.\pipe\norisk-capture-abc-123");
}

#[test]
fn every_codec_is_listed_lightest_first() {
    assert_eq!(ClipCodec::all(), [ClipCodec::H264, ClipCodec::H265, ClipCodec::Av1]);
}

#[test]
fn shapes_name_their_ratios() {
    assert_eq!(ClipShape::Vertical.ratio(), Some((9, 16)));
    assert_eq!(ClipShape::Square.ratio(), Some((1, 1)));
    assert_eq!(ClipShape::Wide.ratio(), Some((21, 9)));
    assert_eq!(ClipShape::Original.ratio(), None);
}

#[test]
fn defaults_are_the_ones_the_launcher_expects() {
    assert_eq!(default_volume(), 100);
    assert_eq!(ClipCodec::default(), ClipCodec::H264);
    assert_eq!(ClipShape::default(), ClipShape::Vertical);
    assert_eq!(Corner::default(), Corner::BottomRight);
}

#[test]
fn tolerates_crlf_and_missing_newline() {
    let raw = r#"{"type":"ping"}"#;
    assert_eq!(line_body(raw), raw);
    assert_eq!(line_body(&format!("{raw}\r\n")), raw);
    assert_eq!(line_body(&format!("{raw}\n")), raw);
}

#[test]
fn a_framed_message_ends_its_line_and_reads_back() {
    let body = String::from(r#"{"type":"status","fps":60}"#);
    let line = end_line(body.clone());
    assert!(line.ends_with('\n'));
    assert_eq!(line.matches('\n').count(), 1);
    assert_eq!(line_body(&line), body);
}
