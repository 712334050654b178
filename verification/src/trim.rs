//! Cutting a clip down to a stretch of it: where the copied video starts,
//! which frames it keeps, how each audio track is moved and windowed, and
//! which audio the cut carries.

use vstd::prelude::*;

use crate::gaps::{max, min};
use crate::media::{
    copy_bytes, copy_packets, AudioFormatView, TIME_BASE_DEN, AudioSource, AudioSourceView, AudioTrack, AudioTrackView, Packet,
    PacketView, SourceClip,
};

verus! {

/// `x` held to the range of an `i64`.
pub open spec fn saturated(x: int) -> i64 {
    if x > i64::MAX {
        i64::MAX
    } else if x < i64::MIN {
        i64::MIN
    } else {
        x as i64
    }
}

fn saturating_add(a: i64, b: i64) -> (r: i64)
    ensures
        r == saturated(a + b),
{
    match a.checked_add(b) {
        Some(v) => v,
        None => if b > 0 {
            i64::MAX
        } else {
            i64::MIN
        },
    }
}

fn saturating_sub(a: i64, b: i64) -> (r: i64)
    ensures
        r == saturated(a - b),
{
    match a.checked_sub(b) {
        Some(v) => v,
        None => if b < 0 {
            i64::MAX
        } else {
            i64::MIN
        },
    }
}

/// What the user asked of one audio track, in the engine's time base: how
/// far to move it (`offset`, positive is later) and, optionally, where in
/// the finished clip its own sound starts and ends.
#[derive(Debug, Clone, Copy)]
pub struct TrackTiming {
    pub stream: u32,
    pub offset: i64,
    pub from: Option<i64>,
    pub to: Option<i64>,
}

/// The first timing that names `stream`.
pub open spec fn timing_for(timings: Seq<TrackTiming>, stream: u32) -> Option<TrackTiming>
    decreases timings.len(),
{
    if timings.len() == 0 {
        None
    } else if timings[0].stream == stream {
        Some(timings[0])
    } else {
        timing_for(timings.drop_first(), stream)
    }
}

/// How far a track is moved.
pub open spec fn moved_by(timing: Option<TrackTiming>) -> int {
    match timing {
        Some(t) => t.offset as int,
        None => 0,
    }
}

/// Where a track's sound starts in the finished clip: its own start, but
/// never before the cut.
pub open spec fn heard_from(timing: Option<TrackTiming>, begin: i64) -> int {
    match timing {
        Some(TrackTiming { from: Some(f), .. }) => max(f as int, begin as int),
        _ => begin as int,
    }
}

/// Where a track's sound ends in the finished clip: its own end, but never
/// after the cut.
pub open spec fn heard_until(timing: Option<TrackTiming>, end: i64) -> int {
    match timing {
        Some(TrackTiming { to: Some(t), .. }) => min(t as int, end as int),
        _ => end as int,
    }
}

/// A packet moved by `ticks`, its times held to the range of an `i64`.
pub open spec fn moved(p: PacketView, ticks: int) -> PacketView {
    PacketView { pts: saturated(p.pts + ticks), dts: saturated(p.dts + ticks), ..p }
}

/// The packets presented in `lo..=hi`, in order, each moved by `ticks`.
pub open spec fn windowed(packets: Seq<PacketView>, lo: int, hi: int, ticks: int) -> Seq<PacketView>
    decreases packets.len(),
{
    if packets.len() == 0 {
        Seq::empty()
    } else {
        let rest = windowed(packets.drop_last(), lo, hi, ticks);
        let p = packets.last();
        if lo <= p.pts && p.pts <= hi {
            rest.push(moved(p, ticks))
        } else {
            rest
        }
    }
}

/// One audio track cut to `begin..=end` of the clip: moved by its offset,
/// and kept where, once moved, it is heard.
pub open spec fn windowed_source(
    source: AudioSourceView,
    timing: Option<TrackTiming>,
    begin: i64,
    end: i64,
) -> AudioSourceView {
    let ticks = moved_by(timing);
    AudioSourceView {
        format: source.format,
        packets: windowed(
            source.packets,
            saturated(heard_from(timing, begin) - ticks) as int,
            saturated(heard_until(timing, end) - ticks) as int,
            ticks,
        ),
    }
}

fn find_timing(timings: &[TrackTiming], stream: u32) -> (r: Option<TrackTiming>)
    ensures
        r == timing_for(timings@, stream),
{
    let mut i: usize = 0;
    assert(timings@.skip(0) =~= timings@);
    while i < timings.len()
        invariant
            0 <= i <= timings@.len(),
            timing_for(timings@, stream) == timing_for(timings@.skip(i as int), stream),
        decreases timings@.len() - i,
    {
        assert(timings@.skip(i as int)[0] == timings@[i as int]);
        assert(timings@.skip(i as int).drop_first() =~= timings@.skip(i + 1));
        if timings[i].stream == stream {
            return Some(timings[i]);
        }
        i = i + 1;
    }
    None
}

fn window_packets(packets: &Vec<Packet>, lo: i64, hi: i64, ticks: i64) -> (out: Vec<Packet>)
    ensures
        out.deep_view() == windowed(packets.deep_view(), lo as int, hi as int, ticks as int),
{
    let mut out: Vec<Packet> = Vec::new();
    let mut i: usize = 0;
    while i < packets.len()
        invariant
            0 <= i <= packets@.len(),
            out.deep_view() == windowed(
                packets.deep_view().take(i as int),
                lo as int,
                hi as int,
                ticks as int,
            ),
        decreases packets@.len() - i,
    {
        let ghost seen = packets.deep_view().take(i + 1);
        assert(seen.drop_last() =~= packets.deep_view().take(i as int));
        assert(seen.last() == packets@[i as int].deep_view());
        let p = &packets[i];
        if lo <= p.pts && p.pts <= hi {
            let q = p.retimed(saturating_add(p.pts, ticks), saturating_add(p.dts, ticks));
            let ghost before = out.deep_view();
            out.push(q);
            assert(out.deep_view() =~= before.push(q.deep_view()));
        }
        i = i + 1;
    }
    assert(packets.deep_view().take(packets@.len() as int) =~= packets.deep_view());
    out
}

/// Every audio track cut to `begin..=end` of the clip. A track is moved by
/// the offset of the first timing that names its index, and keeps only the
/// packets heard, once moved, inside its own window (if it has one) and
/// inside the cut; timestamps that would leave the range of an `i64` stop
/// at its edge. Tracks that no timing names are cut to `begin..=end` as
/// they were recorded.
pub fn windowed_audio(sources: &[AudioSource], timings: &[TrackTiming], begin: i64, end: i64) -> (out: Vec<AudioSource>)
    ensures
        out@.len() == sources@.len(),
        forall|k: int|
            0 <= k < sources@.len() ==> (#[trigger] out@[k]).deep_view() == windowed_source(
                sources@[k].deep_view(),
                timing_for(timings@, k as u32),
                begin,
                end,
            ),
{
    let mut out: Vec<AudioSource> = Vec::with_capacity(sources.len());
    let mut k: usize = 0;
    while k < sources.len()
        invariant
            0 <= k <= sources@.len(),
            out@.len() == k,
            forall|j: int|
                0 <= j < k ==> (#[trigger] out@[j]).deep_view() == windowed_source(
                    sources@[j].deep_view(),
                    timing_for(timings@, j as u32),
                    begin,
                    end,
                ),
        decreases sources@.len() - k,
    {
        let track = &sources[k];
        let timing = find_timing(timings, k as u32);
        let ticks: i64 = match timing {
            Some(t) => t.offset,
            None => 0,
        };
        let first: i64 = match timing {
            Some(TrackTiming { from: Some(f), .. }) => if f > begin {
                f
            } else {
                begin
            },
            _ => begin,
        };
        let last: i64 = match timing {
            Some(TrackTiming { to: Some(t), .. }) => if t < end {
                t
            } else {
                end
            },
            _ => end,
        };
        let packets = window_packets(
            &track.packets,
            saturating_sub(first, ticks),
            saturating_sub(last, ticks),
            ticks,
        );
        out.push(AudioSource { format: track.format.copy(), packets });
        k = k + 1;
    }
    out
}

proof fn lemma_windowed_inside(
    packets: Seq<PacketView>,
    first: int,
    last: int,
    ticks: int,
)
    requires
        i64::MIN <= first <= i64::MAX,
        i64::MIN <= last <= i64::MAX,
        first - ticks <= i64::MAX,
        last - ticks >= i64::MIN,
    ensures
        forall|i: int|
            0 <= i < windowed(
                packets,
                saturated(first - ticks) as int,
                saturated(last - ticks) as int,
                ticks,
            ).len() ==> first <= (#[trigger] windowed(
                packets,
                saturated(first - ticks) as int,
                saturated(last - ticks) as int,
                ticks,
            )[i]).pts <= last,
    decreases packets.len(),
{
    if packets.len() > 0 {
        let lo = saturated(first - ticks) as int;
        let hi = saturated(last - ticks) as int;
        lemma_windowed_inside(packets.drop_last(), first, last, ticks);
        let rest = windowed(packets.drop_last(), lo, hi, ticks);
        let p = packets.last();
        if lo <= p.pts && p.pts <= hi {
            let out = rest.push(moved(p, ticks));
            assert forall|i: int| 0 <= i < out.len() implies first <= (#[trigger] out[i]).pts
                <= last by {
                if i < rest.len() {
                    assert(out[i] == rest[i]);
                } else {
                    assert(out[i] == moved(p, ticks));
                }
            }
        }
    }
}

/// A track cut to its window is heard only inside that window, and so
/// only inside the cut, however far it was moved, as long as moving the
/// window's ends back by the offset stays in the range of an `i64`.
pub proof fn law_a_cut_track_is_heard_only_inside_its_window(
    source: AudioSourceView,
    timing: Option<TrackTiming>,
    begin: i64,
    end: i64,
)
    requires
        heard_from(timing, begin) - moved_by(timing) <= i64::MAX,
        heard_until(timing, end) - moved_by(timing) >= i64::MIN,
    ensures
        forall|i: int|
            0 <= i < windowed_source(source, timing, begin, end).packets.len() ==> {
                let p = #[trigger] windowed_source(source, timing, begin, end).packets[i];
                &&& heard_from(timing, begin) <= p.pts <= heard_until(timing, end)
                &&& begin <= p.pts <= end
            },
{
    lemma_windowed_inside(
        source.packets,
        heard_from(timing, begin),
        heard_until(timing, end),
        moved_by(timing),
    );
}

/// The packets that, moved by `ticks`, are heard in `first..=last`, in
/// order, each moved by `ticks`.
pub open spec fn heard_moved(packets: Seq<PacketView>, first: int, last: int, ticks: int) -> Seq<PacketView>
    decreases packets.len(),
{
    if packets.len() == 0 {
        Seq::empty()
    } else {
        let rest = heard_moved(packets.drop_last(), first, last, ticks);
        let p = packets.last();
        if first <= p.pts + ticks <= last {
            rest.push(PacketView { pts: (p.pts + ticks) as i64, dts: (p.dts + ticks) as i64, ..p })
        } else {
            rest
        }
    }
}

proof fn lemma_windowed_is_heard_moved(packets: Seq<PacketView>, first: int, last: int, ticks: int)
    requires
        i64::MIN <= first - ticks <= i64::MAX,
        i64::MIN <= last - ticks <= i64::MAX,
        forall|i: int|
            0 <= i < packets.len() ==> i64::MIN <= (#[trigger] packets[i]).pts + ticks <= i64::MAX
                && i64::MIN <= packets[i].dts + ticks <= i64::MAX,
    ensures
        windowed(packets, saturated(first - ticks) as int, saturated(last - ticks) as int, ticks)
            == heard_moved(packets, first, last, ticks),
    decreases packets.len(),
{
    if packets.len() > 0 {
        let rest = packets.drop_last();
        assert forall|i: int| 0 <= i < rest.len() implies i64::MIN <= (#[trigger] rest[i]).pts
            + ticks <= i64::MAX && i64::MIN <= rest[i].dts + ticks <= i64::MAX by {
            assert(rest[i] == packets[i]);
        }
        lemma_windowed_is_heard_moved(rest, first, last, ticks);
        assert(packets.last() == packets[packets.len() - 1]);
    }
}

/// When no time leaves the range of an `i64`, a cut track is exactly its
/// recorded packets that, moved by the track's offset, are heard inside its
/// window (its own start and end, cut to the clip's), in order, each with
/// both its times moved by the offset; every other track keeps its format.
pub proof fn law_a_cut_track_is_its_moved_packets_inside_its_window(
    source: AudioSourceView,
    timing: Option<TrackTiming>,
    begin: i64,
    end: i64,
)
    requires
        i64::MIN <= heard_from(timing, begin) - moved_by(timing) <= i64::MAX,
        i64::MIN <= heard_until(timing, end) - moved_by(timing) <= i64::MAX,
        forall|i: int|
            0 <= i < source.packets.len() ==> i64::MIN <= (#[trigger] source.packets[i]).pts
                + moved_by(timing) <= i64::MAX && i64::MIN <= source.packets[i].dts + moved_by(
                timing,
            ) <= i64::MAX,
    ensures
        windowed_source(source, timing, begin, end).format == source.format,
        windowed_source(source, timing, begin, end).packets == heard_moved(
            source.packets,
            heard_from(timing, begin),
            heard_until(timing, end),
            moved_by(timing),
        ),
{
    lemma_windowed_is_heard_moved(
        source.packets,
        heard_from(timing, begin),
        heard_until(timing, end),
        moved_by(timing),
    );
}

proof fn lemma_windowed_keeps_all(packets: Seq<PacketView>, lo: int, hi: int)
    requires
        forall|i: int| 0 <= i < packets.len() ==> lo <= (#[trigger] packets[i]).pts <= hi,
    ensures
        windowed(packets, lo, hi, 0) == packets,
    decreases packets.len(),
{
    if packets.len() > 0 {
        let rest = packets.drop_last();
        assert forall|i: int| 0 <= i < rest.len() implies lo <= (#[trigger] rest[i]).pts <= hi by {
            assert(rest[i] == packets[i]);
        }
        lemma_windowed_keeps_all(rest, lo, hi);
        assert(packets.last() == packets[packets.len() - 1]);
        assert(moved(packets.last(), 0) == packets.last());
        assert(rest.push(packets.last()) =~= packets);
    }
}

/// A track that no timing touches, or one whose timing neither moves it
/// nor gives it a window of its own, keeps every recorded packet that
/// falls inside the cut exactly as it was; a track recorded wholly inside
/// the cut comes out unchanged.
pub proof fn law_an_untouched_track_keeps_its_packets(
    source: AudioSourceView,
    timing: Option<TrackTiming>,
    begin: i64,
    end: i64,
)
    requires
        match timing {
            Some(t) => t.offset == 0 && t.from is None && t.to is None,
            None => true,
        },
        forall|i: int| 0 <= i < source.packets.len() ==> begin <= (#[trigger] source.packets[i]).pts <= end,
    ensures
        windowed_source(source, timing, begin, end) == source,
        windowed_source(source, timing, begin, end) == windowed_source(source, None, begin, end),
{
    lemma_windowed_keeps_all(source.packets, begin as int, end as int);
}

/// The audio track a clip file gets from one recorded source: none when the
/// cut left it without a packet, else the source's format and packets.
pub open spec fn recorded(source: AudioSourceView) -> Seq<AudioTrackView> {
    if source.packets.len() == 0 {
        Seq::empty()
    } else {
        seq![
            AudioTrackView {
                sample_rate: source.format.sample_rate,
                channels: source.format.channels,
                extradata: source.format.extradata,
                packets: source.packets,
                label: source.format.label,
            },
        ]
    }
}

/// The recorded source as the audio of a clip file, untouched.
pub fn as_recorded(source: &AudioSource) -> (out: Vec<AudioTrack>)
    ensures
        out.deep_view() == recorded(source.deep_view()),
{
    if source.packets.len() == 0 {
        let out: Vec<AudioTrack> = Vec::new();
        assert(out.deep_view() =~= Seq::<AudioTrackView>::empty());
        return out;
    }
    let track = AudioTrack {
        sample_rate: source.format.sample_rate,
        channels: source.format.channels,
        extradata: copy_bytes(&source.format.extradata),
        packets: copy_packets(&source.packets),
        label: source.format.label.clone(),
    };
    let mut out: Vec<AudioTrack> = Vec::new();
    out.push(track);
    assert(out.deep_view() =~= recorded(source.deep_view()));
    out
}

/// The recorded mix of a clip, the first of its audio sources, as the audio
/// of a clip file; none when the clip has no audio.
pub fn as_recorded_mix(clip: &SourceClip) -> (out: Vec<AudioTrack>)
    ensures
        out.deep_view() == (if clip.audio@.len() == 0 {
            Seq::<AudioTrackView>::empty()
        } else {
            recorded(clip.audio@[0].deep_view())
        }),
{
    if clip.audio.len() == 0 {
        let out: Vec<AudioTrack> = Vec::new();
        assert(out.deep_view() =~= Seq::<AudioTrackView>::empty());
        out
    } else {
        as_recorded(&clip.audio[0])
    }
}

/// Whether the cut needs its mix rebuilt from the separate tracks: only
/// when the levels change something and the clip kept its tracks apart,
/// beside the mix that comes first.
pub fn remix_wanted(audio: &[AudioSource], levels_changed: bool) -> (wanted: bool)
    ensures
        wanted == (levels_changed && audio@.len() > 1),
{
    levels_changed && audio.len() > 1
}

/// The audio a cut carries: nothing when the clip has none; the rebuilt
/// mix when there is one; otherwise the recorded mix, untouched.
pub fn build_audio(audio: &[AudioSource], remixed: Option<AudioTrack>) -> (out: Vec<AudioTrack>)
    ensures
        out.deep_view() == (if audio@.len() == 0 {
            Seq::<AudioTrackView>::empty()
        } else {
            match remixed {
                Some(track) => seq![track.deep_view()],
                None => recorded(audio@[0].deep_view()),
            }
        }),
{
    if audio.len() == 0 {
        let out: Vec<AudioTrack> = Vec::new();
        assert(out.deep_view() =~= Seq::<AudioTrackView>::empty());
        return out;
    }
    match remixed {
        Some(track) => {
            let mut out: Vec<AudioTrack> = Vec::new();
            out.push(track);
            assert(out.deep_view() =~= seq![out@[0].deep_view()]);
            out
        },
        None => as_recorded(&audio[0]),
    }
}

/// Where the copied video starts: at the last keyframe, in stream order,
/// shown no later than `want_start`, or at `fallback` when there is none.
pub open spec fn keyframe_start(video: Seq<Packet>, want_start: i64, fallback: i64) -> i64
    decreases video.len(),
{
    if video.len() == 0 {
        fallback
    } else if video.last().keyframe && video.last().pts <= want_start {
        video.last().pts
    } else {
        keyframe_start(video.drop_last(), want_start, fallback)
    }
}

/// How many packets at the front of `video` are shown before `begin`.
pub open spec fn shown_before(video: Seq<Packet>, begin: i64) -> int
    decreases video.len(),
{
    if video.len() == 0 || video[0].pts >= begin {
        0
    } else {
        1 + shown_before(video.drop_first(), begin)
    }
}

/// How many packets at the front of `video` are shown no later than `end`.
pub open spec fn shown_by(video: Seq<Packet>, end: i64) -> int
    decreases video.len(),
{
    if video.len() == 0 || video[0].pts > end {
        0
    } else {
        1 + shown_by(video.drop_first(), end)
    }
}

/// The video packets a cut copies: past the leading ones shown before
/// `begin`, the run that follows of those shown no later than `end`.
pub open spec fn cut_packets(video: Seq<Packet>, begin: i64, end: i64) -> Seq<PacketView> {
    let rest = video.skip(shown_before(video, begin));
    rest.take(shown_by(rest, end)).map_values(|p: Packet| p.deep_view())
}

proof fn lemma_shown_before_bounds(video: Seq<Packet>, begin: i64)
    ensures
        0 <= shown_before(video, begin) <= video.len(),
    decreases video.len(),
{
    if video.len() > 0 {
        lemma_shown_before_bounds(video.drop_first(), begin);
    }
}

proof fn lemma_shown_by_bounds(video: Seq<Packet>, end: i64)
    ensures
        0 <= shown_by(video, end) <= video.len(),
        forall|i: int| 0 <= i < shown_by(video, end) ==> #[trigger] video[i].pts <= end,
    decreases video.len(),
{
    if video.len() > 0 && video[0].pts <= end {
        let rest = video.drop_first();
        lemma_shown_by_bounds(rest, end);
        assert forall|i: int| 0 <= i < shown_by(video, end) implies #[trigger] video[i].pts
            <= end by {
            if i > 0 {
                assert(video[i] == rest[i - 1]);
            }
        }
    }
}

proof fn lemma_keyframe_start_found(video: Seq<Packet>, want_start: i64, fallback: i64) -> (k: int)
    requires
        exists|i: int| 0 <= i < video.len() && video[i].keyframe && video[i].pts <= want_start,
    ensures
        0 <= k < video.len(),
        video[k].keyframe,
        video[k].pts <= want_start,
        keyframe_start(video, want_start, fallback) == video[k].pts,
    decreases video.len(),
{
    let last = video.len() - 1;
    assert(video.last() == video[last]);
    if video[last].keyframe && video[last].pts <= want_start {
        last
    } else {
        let rest = video.drop_last();
        let i = choose|i: int| 0 <= i < video.len() && video[i].keyframe && video[i].pts <= want_start;
        assert(i != last);
        assert(rest[i] == video[i]);
        let k = lemma_keyframe_start_found(rest, want_start, fallback);
        assert(rest[k] == video[k]);
        k
    }
}

proof fn lemma_shown_before_is(video: Seq<Packet>, begin: i64, k: int)
    requires
        0 <= k < video.len(),
        forall|j: int| 0 <= j < k ==> #[trigger] video[j].pts < begin,
        video[k].pts >= begin,
    ensures
        shown_before(video, begin) == k,
    decreases k,
{
    if k > 0 {
        let rest = video.drop_first();
        assert forall|j: int| 0 <= j < k - 1 implies #[trigger] rest[j].pts < begin by {
            assert(rest[j] == video[j + 1]);
        }
        assert(rest[k - 1] == video[k]);
        assert(video[0].pts < begin);
        lemma_shown_before_is(rest, begin, k - 1);
    }
}

/// When frames are stored in the order they are shown and a keyframe is
/// shown no later than the start asked for, a cut's copy begins with the
/// last such keyframe, so that it decodes from its first packet.
pub proof fn law_a_cut_begins_with_a_keyframe(video: Seq<Packet>, want_start: i64, first_pts: i64, end: i64)
    requires
        forall|i: int, j: int| 0 <= i < j < video.len() ==> video[i].pts < video[j].pts,
        exists|i: int| 0 <= i < video.len() && video[i].keyframe && video[i].pts <= want_start,
        want_start <= end,
    ensures
        ({
            let begin = keyframe_start(video, want_start, first_pts);
            let copied = cut_packets(video, begin, end);
            &&& copied.len() > 0
            &&& copied[0].keyframe
            &&& copied[0].pts == begin
        }),
{
    let k = lemma_keyframe_start_found(video, want_start, first_pts);
    let begin = video[k].pts;
    assert forall|j: int| 0 <= j < k implies #[trigger] video[j].pts < begin by {}
    lemma_shown_before_is(video, begin, k);
    let rest = video.skip(k);
    assert(rest[0] == video[k]);
    assert(rest.len() > 0);
    lemma_shown_by_bounds(rest.drop_first(), end);
    assert(shown_by(rest, end) >= 1);
    lemma_shown_by_bounds(rest, end);
}

/// A cut skips exactly the leading packets shown before its start, and
/// copies from there exactly the run shown no later than its end: every
/// packet skipped is shown before `begin` and the first one copied is not;
/// every one copied is shown by `end`, and the one after them is not.
pub proof fn law_a_cut_copies_the_run_shown_inside_it(video: Seq<Packet>, begin: i64, end: i64)
    ensures
        ({
            let skipped = shown_before(video, begin);
            let rest = video.skip(skipped);
            let copied = shown_by(rest, end);
            &&& 0 <= skipped <= video.len()
            &&& forall|i: int| 0 <= i < skipped ==> #[trigger] video[i].pts < begin
            &&& skipped < video.len() ==> video[skipped].pts >= begin
            &&& 0 <= copied <= rest.len()
            &&& forall|i: int| 0 <= i < copied ==> #[trigger] rest[i].pts <= end
            &&& copied < rest.len() ==> rest[copied].pts > end
        }),
{
    lemma_skipped_before(video, begin);
    let rest = video.skip(shown_before(video, begin));
    lemma_copied_by(rest, end);
    lemma_shown_by_bounds(rest, end);
}

proof fn lemma_skipped_before(video: Seq<Packet>, begin: i64)
    ensures
        0 <= shown_before(video, begin) <= video.len(),
        forall|i: int| 0 <= i < shown_before(video, begin) ==> #[trigger] video[i].pts < begin,
        shown_before(video, begin) < video.len() ==> video[shown_before(video, begin)].pts >= begin,
    decreases video.len(),
{
    if video.len() > 0 && video[0].pts < begin {
        let rest = video.drop_first();
        lemma_skipped_before(rest, begin);
        assert forall|i: int| 0 <= i < shown_before(video, begin) implies #[trigger] video[i].pts
            < begin by {
            if i > 0 {
                assert(video[i] == rest[i - 1]);
            }
        }
        if shown_before(rest, begin) < rest.len() {
            assert(video[shown_before(video, begin)] == rest[shown_before(rest, begin)]);
        }
    }
}

proof fn lemma_copied_by(video: Seq<Packet>, end: i64)
    ensures
        shown_by(video, end) < video.len() ==> video[shown_by(video, end)].pts > end,
    decreases video.len(),
{
    lemma_shown_by_bounds(video, end);
    if video.len() > 0 && video[0].pts <= end {
        let rest = video.drop_first();
        lemma_copied_by(rest, end);
        lemma_shown_by_bounds(rest, end);
        if shown_by(rest, end) < rest.len() {
            assert(video[shown_by(video, end)] == rest[shown_by(rest, end)]);
        }
    }
}

/// The time a cut's copied video starts at: the last keyframe shown no
/// later than `want_start`, or `first_pts` when there is none, so that the
/// copy decodes from its first packet.
pub fn start_at_keyframe(video: &[Packet], want_start: i64, first_pts: i64) -> (begin: i64)
    ensures
        begin == keyframe_start(video@, want_start, first_pts),
{
    let mut i: usize = video.len();
    assert(video@.take(video@.len() as int) =~= video@);
    while i > 0
        invariant
            0 <= i <= video@.len(),
            keyframe_start(video@, want_start, first_pts) == keyframe_start(
                video@.take(i as int),
                want_start,
                first_pts,
            ),
        decreases i,
    {
        assert(video@.take(i as int).drop_last() =~= video@.take(i - 1));
        assert(video@.take(i as int).last() == video@[i - 1]);
        if video[i - 1].keyframe && video[i - 1].pts <= want_start {
            return video[i - 1].pts;
        }
        i = i - 1;
    }
    assert(video@.take(0) =~= Seq::<Packet>::empty());
    first_pts
}

/// Copies of the video packets from the first shown at or after `begin`
/// through the run shown no later than `end`.
pub fn cut_video(video: &[Packet], begin: i64, end: i64) -> (out: Vec<Packet>)
    ensures
        out.deep_view() == cut_packets(video@, begin, end),
        forall|i: int| 0 <= i < out@.len() ==> #[trigger] out@[i].pts <= end,
{
    let mut first: usize = 0;
    assert(video@.skip(0) =~= video@);
    while first < video.len() && video[first].pts < begin
        invariant
            0 <= first <= video@.len(),
            shown_before(video@, begin) == first + shown_before(video@.skip(first as int), begin),
        decreases video@.len() - first,
    {
        assert(video@.skip(first as int).drop_first() =~= video@.skip(first + 1));
        first = first + 1;
    }
    proof {
        if first < video@.len() {
            assert(video@.skip(first as int)[0] == video@[first as int]);
        }
    }
    let ghost rest = video@.skip(first as int);
    let mut out: Vec<Packet> = Vec::new();
    let mut i: usize = first;
    assert(rest.skip(0) =~= rest);
    while i < video.len() && video[i].pts <= end
        invariant
            first <= i <= video@.len(),
            rest == video@.skip(first as int),
            shown_by(rest, end) == (i - first) + shown_by(video@.skip(i as int), end),
            out@.len() == i - first,
            forall|j: int| 0 <= j < out@.len() ==> (#[trigger] out@[j]).deep_view() == video@[first
                + j].deep_view(),
            forall|j: int| 0 <= j < out@.len() ==> #[trigger] out@[j].pts <= end,
        decreases video@.len() - i,
    {
        assert(video@.skip(i as int).drop_first() =~= video@.skip(i + 1));
        assert(video@.skip(i as int)[0] == video@[i as int]);
        out.push(video[i].copy());
        i = i + 1;
    }
    proof {
        if i < video@.len() {
            assert(video@.skip(i as int)[0] == video@[i as int]);
        }
        lemma_shown_by_bounds(rest, end);
        let want = cut_packets(video@, begin, end);
        assert(want.len() == out@.len());
        assert forall|j: int| 0 <= j < out@.len() implies out.deep_view()[j] == want[j] by {
            assert(rest[j] == video@[first + j]);
        }
        assert(out.deep_view() =~= want);
    }
    out
}

/// The video of a cut: where its copy starts, the packets it copies, the
/// time of the last of them, and the time from which it plays.
#[derive(Debug)]
pub struct Cut {
    pub begin: i64,
    pub end_pts: i64,
    pub playback_start_pts: i64,
    pub video: Vec<Packet>,
}

/// Why a cut could not be made.
#[derive(Debug, Clone, Copy, PartialEq, Eq, Structural)]
pub enum CutError {
    /// No frame is shown between the start and the end asked for.
    NoFrames,
}

/// Cuts the video of a clip to `want_start..=want_end`: the copy starts at
/// the last keyframe shown no later than `want_start` (or at `first_pts`),
/// so that it decodes, and plays from `want_start` or from that keyframe,
/// whichever is later. Fails when no frame falls in the range.
pub fn cut(video: &[Packet], first_pts: i64, want_start: i64, want_end: i64) -> (r: Result<Cut, CutError>)
    ensures
        ({
            let begin = keyframe_start(video@, want_start, first_pts);
            let packets = cut_packets(video@, begin, want_end);
            match r {
                Ok(c) => {
                    &&& packets.len() > 0
                    &&& c.begin == begin
                    &&& c.video.deep_view() == packets
                    &&& c.end_pts == packets.last().pts
                    &&& c.playback_start_pts == max(want_start as int, begin as int)
                },
                Err(e) => packets.len() == 0 && e == CutError::NoFrames,
            }
        }),
{
    let begin = start_at_keyframe(video, want_start, first_pts);
    let packets = cut_video(video, begin, want_end);
    if packets.len() == 0 {
        return Err(CutError::NoFrames);
    }
    let end_pts = packets[packets.len() - 1].pts;
    proof {
        assert(packets.deep_view().last() == packets@[packets@.len() - 1].deep_view());
    }
    let playback_start_pts = if want_start > begin {
        want_start
    } else {
        begin
    };
    Ok(Cut { begin, end_pts, playback_start_pts, video: packets })
}

/// The bytes held by a run of packets.
pub open spec fn packets_size(packets: Seq<PacketView>) -> int
    decreases packets.len(),
{
    if packets.len() == 0 {
        0
    } else {
        packets_size(packets.drop_last()) + packets.last().data.len()
    }
}

/// The bytes held by the packets of some audio tracks.
pub open spec fn tracks_size(tracks: Seq<AudioTrackView>) -> int
    decreases tracks.len(),
{
    if tracks.len() == 0 {
        0
    } else {
        tracks_size(tracks.drop_last()) + packets_size(tracks.last().packets)
    }
}

proof fn lemma_packets_size_nonnegative(packets: Seq<PacketView>)
    ensures
        packets_size(packets) >= 0,
    decreases packets.len(),
{
    if packets.len() > 0 {
        lemma_packets_size_nonnegative(packets.drop_last());
    }
}

fn add_packet_sizes(total: u64, packets: &[Packet]) -> (n: u64)
    ensures
        n == min(total + packets_size(packets.deep_view()), u64::MAX as int),
{
    let mut n = total;
    let mut i: usize = 0;
    while i < packets.len()
        invariant
            0 <= i <= packets@.len(),
            n == min(total + packets_size(packets.deep_view().take(i as int)), u64::MAX as int),
        decreases packets@.len() - i,
    {
        let ghost seen = packets.deep_view().take(i + 1);
        assert(seen.drop_last() =~= packets.deep_view().take(i as int));
        assert(seen.last() == packets@[i as int].deep_view());
        proof {
            lemma_packets_size_nonnegative(packets.deep_view().take(i as int));
        }
        n = n.saturating_add(packets[i].len() as u64);
        i = i + 1;
    }
    assert(packets.deep_view().take(packets@.len() as int) =~= packets.deep_view());
    n
}

/// How many bytes a clip file's packets take: the video's and every audio
/// track's, held at `u64::MAX`.
pub fn clip_bytes(video: &[Packet], audio: &[AudioTrack]) -> (n: u64)
    ensures
        n == min(packets_size(video.deep_view()) + tracks_size(audio.deep_view()), u64::MAX as int),
{
    let mut n = add_packet_sizes(0, video);
    let mut i: usize = 0;
    while i < audio.len()
        invariant
            0 <= i <= audio@.len(),
            n == min(
                packets_size(video.deep_view()) + tracks_size(audio.deep_view().take(i as int)),
                u64::MAX as int,
            ),
        decreases audio@.len() - i,
    {
        let ghost seen = audio.deep_view().take(i + 1);
        assert(seen.drop_last() =~= audio.deep_view().take(i as int));
        assert(seen.last() == audio@[i as int].deep_view());
        proof {
            lemma_packets_size_nonnegative(audio@[i as int].packets.deep_view());
        }
        n = add_packet_sizes(n, audio[i].packets.as_slice());
        i = i + 1;
    }
    assert(audio.deep_view().take(audio@.len() as int) =~= audio.deep_view());
    n
}

/// The latest time any of `packets` is shown, or `latest` when it is later.
pub open spec fn latest_shown(packets: Seq<PacketView>, latest: Option<i64>) -> Option<i64>
    decreases packets.len(),
{
    if packets.len() == 0 {
        latest
    } else {
        let before = latest_shown(packets.drop_last(), latest);
        let p = packets.last().pts;
        match before {
            Some(t) if t >= p => Some(t),
            _ => Some(p),
        }
    }
}

/// The latest shown time over the packets of some audio tracks.
pub open spec fn latest_heard(tracks: Seq<AudioTrackView>, latest: Option<i64>) -> Option<i64>
    decreases tracks.len(),
{
    if tracks.len() == 0 {
        latest
    } else {
        latest_shown(tracks.last().packets, latest_heard(tracks.drop_last(), latest))
    }
}

fn later_of(packets: &[Packet], latest: Option<i64>) -> (r: Option<i64>)
    ensures
        r == latest_shown(packets.deep_view(), latest),
{
    let mut r = latest;
    let mut i: usize = 0;
    while i < packets.len()
        invariant
            0 <= i <= packets@.len(),
            r == latest_shown(packets.deep_view().take(i as int), latest),
        decreases packets@.len() - i,
    {
        let ghost seen = packets.deep_view().take(i + 1);
        assert(seen.drop_last() =~= packets.deep_view().take(i as int));
        assert(seen.last() == packets@[i as int].deep_view());
        let p = packets[i].pts;
        r = match r {
            Some(t) if t >= p => Some(t),
            _ => Some(p),
        };
        i = i + 1;
    }
    assert(packets.deep_view().take(packets@.len() as int) =~= packets.deep_view());
    r
}

/// Where a clip file ends: the latest time any of its video or audio
/// packets is shown, or `otherwise` when it has no packet at all.
pub fn last_shown(video: &[Packet], audio: &[AudioTrack], otherwise: i64) -> (t: i64)
    ensures
        t == (match latest_heard(audio.deep_view(), latest_shown(video.deep_view(), None)) {
            Some(t) => t,
            None => otherwise,
        }),
{
    let mut r = later_of(video, None);
    let mut i: usize = 0;
    while i < audio.len()
        invariant
            0 <= i <= audio@.len(),
            r == latest_heard(audio.deep_view().take(i as int), latest_shown(video.deep_view(), None)),
        decreases audio@.len() - i,
    {
        let ghost seen = audio.deep_view().take(i + 1);
        assert(seen.drop_last() =~= audio.deep_view().take(i as int));
        assert(seen.last() == audio@[i as int].deep_view());
        r = later_of(audio[i].packets.as_slice(), r);
        i = i + 1;
    }
    assert(audio.deep_view().take(audio@.len() as int) =~= audio.deep_view());
    match r {
        Some(t) => t,
        None => otherwise,
    }
}

/// Where a mix rebuilt from separate tracks starts: at the earliest first
/// packet among them (tracks left without a packet count for nothing).
pub open spec fn earliest_start(tracks: Seq<AudioSourceView>) -> Option<i64>
    decreases tracks.len(),
{
    if tracks.len() == 0 {
        None
    } else {
        let before = earliest_start(tracks.drop_last());
        let last = tracks.last();
        if last.packets.len() == 0 {
            before
        } else {
            match before {
                Some(t) if t <= last.packets[0].pts => Some(t),
                _ => Some(last.packets[0].pts),
            }
        }
    }
}

/// Where a mix rebuilt from the separate tracks `stems` starts; none when
/// none of them has a packet in the cut.
pub fn mix_start(stems: &[AudioSource]) -> (start: Option<i64>)
    ensures
        start == earliest_start(stems.deep_view()),
{
    let mut start: Option<i64> = None;
    let mut i: usize = 0;
    while i < stems.len()
        invariant
            0 <= i <= stems@.len(),
            start == earliest_start(stems.deep_view().take(i as int)),
        decreases stems@.len() - i,
    {
        let ghost seen = stems.deep_view().take(i + 1);
        assert(seen.drop_last() =~= stems.deep_view().take(i as int));
        assert(seen.last() == stems@[i as int].deep_view());
        let packets = &stems[i].packets;
        if packets.len() > 0 {
            let first = packets[0].pts;
            assert(seen.last().packets[0] == packets@[0].deep_view());
            start = match start {
                Some(t) if t <= first => Some(t),
                _ => Some(first),
            };
        }
        i = i + 1;
    }
    assert(stems.deep_view().take(stems@.len() as int) =~= stems.deep_view());
    start
}

/// How many interleaved samples into a rebuilt mix that starts at `start`
/// a track whose first packet is at `first` lands, at `sample_rate` samples
/// a second on each of `channels` channels; a track that would start
/// before the mix lands at its start.
pub open spec fn mix_offset_of(first: i64, start: i64, sample_rate: u32, channels: u32) -> int {
    let ahead = if first >= start {
        first - start
    } else {
        0
    };
    ahead * sample_rate * channels / TIME_BASE_DEN as int
}

/// Where a track's samples go in a rebuilt mix, as an index into its
/// interleaved samples.
pub fn mix_offset(first: i64, start: i64, sample_rate: u32, channels: u32) -> (offset: usize)
    requires
        mix_offset_of(first, start, sample_rate, channels) <= usize::MAX,
    ensures
        offset == mix_offset_of(first, start, sample_rate, channels),
{
    let ahead: i128 = if first >= start {
        first as i128 - start as i128
    } else {
        0
    };
    assert(ahead * sample_rate <= 0x1_0000_0000_0000_0000 * 0x1_0000_0000) by (nonlinear_arith)
        requires
            0 <= ahead <= 0x1_0000_0000_0000_0000,
            sample_rate <= u32::MAX,
    ;
    assert(ahead * sample_rate * channels <= 0x1_0000_0000_0000_0000 * 0x1_0000_0000 * 0x1_0000_0000)
        by (nonlinear_arith)
        requires
            0 <= ahead * sample_rate <= 0x1_0000_0000_0000_0000 * 0x1_0000_0000,
            channels <= u32::MAX,
    ;
    let scaled = ahead * sample_rate as i128 * channels as i128 / TIME_BASE_DEN as i128;
    scaled as usize
}

proof fn lemma_packets_size_concat(a: Seq<PacketView>, b: Seq<PacketView>)
    ensures
        packets_size(a + b) == packets_size(a) + packets_size(b),
    decreases b.len(),
{
    if b.len() == 0 {
        assert(a + b =~= a);
    } else {
        lemma_packets_size_concat(a, b.drop_last());
        assert((a + b).drop_last() =~= a + b.drop_last());
        assert((a + b).last() == b.last());
    }
}

proof fn lemma_tracks_size_concat(a: Seq<AudioTrackView>, b: Seq<AudioTrackView>)
    ensures
        tracks_size(a + b) == tracks_size(a) + tracks_size(b),
    decreases b.len(),
{
    if b.len() == 0 {
        assert(a + b =~= a);
    } else {
        lemma_tracks_size_concat(a, b.drop_last());
        assert((a + b).drop_last() =~= a + b.drop_last());
        assert((a + b).last() == b.last());
    }
}

/// Sizes add up: the bytes of two runs of packets together are the bytes
/// of each, a single packet holds the bytes of its data, and likewise the
/// packet bytes of some audio tracks together are those of each, a single
/// track holding the bytes of its packets. So a clip file's size
/// (`clip_bytes`) is its video's bytes plus every audio track's.
pub proof fn law_sizes_add_up(
    a: Seq<PacketView>,
    b: Seq<PacketView>,
    p: PacketView,
    ta: Seq<AudioTrackView>,
    tb: Seq<AudioTrackView>,
    t: AudioTrackView,
)
    ensures
        packets_size(a + b) == packets_size(a) + packets_size(b),
        packets_size(seq![p]) == p.data.len(),
        packets_size(Seq::<PacketView>::empty()) == 0,
        tracks_size(ta + tb) == tracks_size(ta) + tracks_size(tb),
        tracks_size(seq![t]) == packets_size(t.packets),
        tracks_size(Seq::<AudioTrackView>::empty()) == 0,
{
    lemma_packets_size_concat(a, b);
    lemma_tracks_size_concat(ta, tb);
    assert(seq![p].drop_last() =~= Seq::<PacketView>::empty());
    assert(seq![p].last() == p);
    assert(packets_size(Seq::<PacketView>::empty()) == 0);
    assert(seq![t].drop_last() =~= Seq::<AudioTrackView>::empty());
    assert(seq![t].last() == t);
    assert(tracks_size(Seq::<AudioTrackView>::empty()) == 0);
}

proof fn lemma_latest_shown(packets: Seq<PacketView>, latest: Option<i64>)
    ensures
        latest_shown(packets, latest) is None <==> (latest is None && packets.len() == 0),
        latest_shown(packets, latest) matches Some(t) ==> {
            &&& forall|i: int| 0 <= i < packets.len() ==> (#[trigger] packets[i]).pts <= t
            &&& (latest matches Some(l) ==> l <= t)
            &&& (latest == Some(t) || exists|i: int| 0 <= i < packets.len() && (#[trigger] packets[i]).pts
                == t)
        },
    decreases packets.len(),
{
    if packets.len() > 0 {
        let rest = packets.drop_last();
        lemma_latest_shown(rest, latest);
        let last = packets.len() - 1;
        assert(packets.last() == packets[last]);
        assert forall|i: int| 0 <= i < last implies packets[i] == rest[i] by {}
        let t = latest_shown(packets, latest)->0;
        match latest_shown(rest, latest) {
            Some(b) => {
                if exists|i: int| 0 <= i < rest.len() && (#[trigger] rest[i]).pts == b {
                    let i = choose|i: int| 0 <= i < rest.len() && (#[trigger] rest[i]).pts == b;
                    assert(packets[i].pts == b);
                }
            },
            None => {},
        }
        assert(packets[last].pts <= t);
    }
}

proof fn lemma_latest_heard(tracks: Seq<AudioTrackView>, latest: Option<i64>)
    ensures
        latest_heard(tracks, latest) is None <==> (latest is None && forall|k: int|
            0 <= k < tracks.len() ==> (#[trigger] tracks[k]).packets.len() == 0),
        latest_heard(tracks, latest) matches Some(t) ==> {
            &&& forall|k: int, i: int|
                0 <= k < tracks.len() && 0 <= i < tracks[k].packets.len() ==> (
                #[trigger] tracks[k].packets[i]).pts <= t
            &&& (latest matches Some(l) ==> l <= t)
            &&& (latest == Some(t) || exists|k: int, i: int|
                0 <= k < tracks.len() && 0 <= i < tracks[k].packets.len() && (
                #[trigger] tracks[k].packets[i]).pts == t)
        },
    decreases tracks.len(),
{
    if tracks.len() > 0 {
        let rest = tracks.drop_last();
        let last = tracks.len() - 1;
        lemma_latest_heard(rest, latest);
        let before = latest_heard(rest, latest);
        lemma_latest_shown(tracks.last().packets, before);
        assert(tracks.last() == tracks[last]);
        assert forall|k: int| 0 <= k < last implies tracks[k] == rest[k] by {}
        match latest_heard(tracks, latest) {
            Some(t) => {
                if before == Some(t) {
                    if latest != Some(t) {
                        let (k, i) = choose|k: int, i: int|
                            0 <= k < rest.len() && 0 <= i < rest[k].packets.len() && (
                            #[trigger] rest[k].packets[i]).pts == t;
                        assert(tracks[k].packets[i].pts == t);
                    }
                } else {
                    let i = choose|i: int|
                        0 <= i < tracks[last].packets.len() && (
                        #[trigger] tracks[last].packets[i]).pts == t;
                    assert(tracks[last].packets[i].pts == t);
                }
                assert forall|k: int, i: int|
                    0 <= k < tracks.len() && 0 <= i < tracks[k].packets.len() implies (
                    #[trigger] tracks[k].packets[i]).pts <= t by {
                    if k < last {
                        assert(rest[k].packets[i].pts <= before->0);
                    }
                }
            },
            None => {
                assert forall|k: int| 0 <= k < tracks.len() implies (
                #[trigger] tracks[k]).packets.len() == 0 by {
                    if k < last {
                        assert(rest[k] == tracks[k]);
                    }
                }
            },
        }
        if latest is None && forall|k: int|
            0 <= k < tracks.len() ==> (#[trigger] tracks[k]).packets.len() == 0 {
            assert forall|k: int| 0 <= k < rest.len() implies (#[trigger] rest[k]).packets.len()
                == 0 by {
                assert(rest[k] == tracks[k]);
            }
            assert(tracks[last].packets.len() == 0);
        }
    }
}

/// Where a clip file ends (as `last_shown` gives it) is the latest time any
/// of its video or audio packets is shown: no packet of either is shown
/// later, and some packet is shown then; with no packet at all it is
/// `otherwise`.
pub proof fn law_a_clip_ends_at_its_latest_packet(
    video: Seq<PacketView>,
    audio: Seq<AudioTrackView>,
    otherwise: i64,
)
    ensures
        ({
            let end = match latest_heard(audio, latest_shown(video, None)) {
                Some(t) => t,
                None => otherwise,
            };
            &&& forall|i: int| 0 <= i < video.len() ==> (#[trigger] video[i]).pts <= end
            &&& forall|k: int, i: int|
                0 <= k < audio.len() && 0 <= i < audio[k].packets.len() ==> (
                #[trigger] audio[k].packets[i]).pts <= end
            &&& (exists|i: int| 0 <= i < video.len() && (#[trigger] video[i]).pts == end)
                || (exists|k: int, i: int|
                0 <= k < audio.len() && 0 <= i < audio[k].packets.len() && (
                #[trigger] audio[k].packets[i]).pts == end)
                || (video.len() == 0 && (forall|k: int|
                0 <= k < audio.len() ==> (#[trigger] audio[k]).packets.len() == 0) && end
                == otherwise)
        }),
{
    lemma_latest_shown(video, None);
    lemma_latest_heard(audio, latest_shown(video, None));
}

/// A rebuilt mix starts (as `mix_start` gives it) at the first packet of
/// one of its tracks, and no track's first packet comes before it; there is
/// no start exactly when no track has a packet.
pub proof fn law_a_mix_starts_at_its_earliest_track(tracks: Seq<AudioSourceView>)
    ensures
        earliest_start(tracks) is None <==> forall|k: int|
            0 <= k < tracks.len() ==> (#[trigger] tracks[k]).packets.len() == 0,
        earliest_start(tracks) matches Some(t) ==> {
            &&& forall|k: int|
                0 <= k < tracks.len() && (#[trigger] tracks[k]).packets.len() > 0 ==> t
                    <= tracks[k].packets[0].pts
            &&& exists|k: int|
                0 <= k < tracks.len() && (#[trigger] tracks[k]).packets.len() > 0
                    && tracks[k].packets[0].pts == t
        },
    decreases tracks.len(),
{
    if tracks.len() > 0 {
        let rest = tracks.drop_last();
        let last = tracks.len() - 1;
        law_a_mix_starts_at_its_earliest_track(rest);
        assert(tracks.last() == tracks[last]);
        assert forall|k: int| 0 <= k < last implies tracks[k] == rest[k] by {}
        match earliest_start(tracks) {
            Some(t) => {
                if earliest_start(rest) == Some(t) {
                    let k = choose|k: int|
                        0 <= k < rest.len() && (#[trigger] rest[k]).packets.len() > 0
                            && rest[k].packets[0].pts == t;
                    assert(tracks[k] == rest[k]);
                } else {
                    assert(tracks[last].packets.len() > 0 && tracks[last].packets[0].pts == t);
                }
            },
            None => {},
        }
        if forall|k: int| 0 <= k < tracks.len() ==> (#[trigger] tracks[k]).packets.len() == 0 {
            assert forall|k: int| 0 <= k < rest.len() implies (#[trigger] rest[k]).packets.len()
                == 0 by {
                assert(rest[k] == tracks[k]);
            }
        }
    }
}

/// Where a cut's copy starts: at the last keyframe, in stream order, shown
/// no later than `want_start`, or at `fallback` when no keyframe is.
pub proof fn law_a_cut_starts_at_the_last_keyframe_by_the_start(
    video: Seq<Packet>,
    want_start: i64,
    fallback: i64,
)
    ensures
        (forall|i: int| 0 <= i < video.len() ==> !((#[trigger] video[i]).keyframe && video[i].pts
            <= want_start)) ==> keyframe_start(video, want_start, fallback) == fallback,
        (exists|i: int| 0 <= i < video.len() && (#[trigger] video[i]).keyframe && video[i].pts
            <= want_start) ==> exists|k: int|
            0 <= k < video.len() && (#[trigger] video[k]).keyframe && video[k].pts <= want_start
                && keyframe_start(video, want_start, fallback) == video[k].pts && forall|j: int|
                k < j < video.len() ==> !((#[trigger] video[j]).keyframe && video[j].pts
                    <= want_start),
    decreases video.len(),
{
    if video.len() > 0 {
        let rest = video.drop_last();
        let last = video.len() - 1;
        assert(video.last() == video[last]);
        law_a_cut_starts_at_the_last_keyframe_by_the_start(rest, want_start, fallback);
        assert forall|k: int| 0 <= k < last implies video[k] == rest[k] by {}
        if video[last].keyframe && video[last].pts <= want_start {
            assert(video[last].keyframe);
        } else {
            if exists|i: int| 0 <= i < video.len() && (#[trigger] video[i]).keyframe && video[i].pts
                <= want_start {
                let i = choose|i: int| 0 <= i < video.len() && (#[trigger] video[i]).keyframe
                    && video[i].pts <= want_start;
                assert(rest[i] == video[i]);
                let k = choose|k: int|
                    0 <= k < rest.len() && (#[trigger] rest[k]).keyframe && rest[k].pts <= want_start
                        && keyframe_start(rest, want_start, fallback) == rest[k].pts && forall|j: int|
                        k < j < rest.len() ==> !((#[trigger] rest[j]).keyframe && rest[j].pts
                            <= want_start);
                assert(video[k] == rest[k]);
                assert forall|j: int| k < j < video.len() implies !((#[trigger] video[j]).keyframe
                    && video[j].pts <= want_start) by {
                    if j < last {
                        assert(video[j] == rest[j]);
                    }
                }
            }
            if forall|i: int| 0 <= i < video.len() ==> !((#[trigger] video[i]).keyframe
                && video[i].pts <= want_start) {
                assert forall|i: int| 0 <= i < rest.len() implies !((#[trigger] rest[i]).keyframe
                    && rest[i].pts <= want_start) by {
                    assert(rest[i] == video[i]);
                }
            }
        }
    }
}

} // verus!
