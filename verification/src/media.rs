//! Encoded packets and the audio a clip carries, as the engine holds them
//! in memory.

use vstd::prelude::*;
use vstd::string::StrSliceExecFns;

use crate::protocol::ClipCodec;

verus! {

/// Ticks per second of the engine's time base, in which every packet is
/// timed.
pub const TIME_BASE_DEN: i64 = 90_000;

/// One encoded video or audio packet, timed in the engine's time base.
#[derive(Debug)]
pub struct Packet {
    pub data: Vec<u8>,
    pub pts: i64,
    pub dts: i64,
    pub keyframe: bool,
}

/// A packet as a mathematical value.
pub struct PacketView {
    pub data: Seq<u8>,
    pub pts: i64,
    pub dts: i64,
    pub keyframe: bool,
}

impl DeepView for Packet {
    type V = PacketView;

    open spec fn deep_view(&self) -> PacketView {
        PacketView { data: self.data@, pts: self.pts, dts: self.dts, keyframe: self.keyframe }
    }
}

impl Packet {
    /// The size of the packet in bytes.
    pub fn len(&self) -> (n: usize)
        ensures
            n == self.data@.len(),
    {
        self.data.len()
    }

    /// A copy of this packet with its timestamps replaced.
    pub fn retimed(&self, pts: i64, dts: i64) -> (p: Packet)
        ensures
            p.deep_view() == (PacketView { pts, dts, ..self.deep_view() }),
    {
        Packet { data: copy_bytes(&self.data), pts, dts, keyframe: self.keyframe }
    }

    /// An exact copy of this packet.
    pub fn copy(&self) -> (p: Packet)
        ensures
            p.deep_view() == self.deep_view(),
    {
        self.retimed(self.pts, self.dts)
    }
}

/// A copy of a byte buffer.
pub fn copy_bytes(bytes: &Vec<u8>) -> (v: Vec<u8>)
    ensures
        v@ == bytes@,
{
    let mut v: Vec<u8> = Vec::with_capacity(bytes.len());
    let mut i: usize = 0;
    while i < bytes.len()
        invariant
            0 <= i <= bytes@.len(),
            v@ == bytes@.take(i as int),
        decreases bytes@.len() - i,
    {
        v.push(bytes[i]);
        i = i + 1;
        assert(v@ =~= bytes@.take(i as int));
    }
    assert(bytes@.take(bytes@.len() as int) =~= bytes@);
    v
}

/// Copies of packets, in order.
pub fn copy_packets(packets: &[Packet]) -> (v: Vec<Packet>)
    ensures
        v.deep_view() == packets.deep_view(),
{
    let mut v: Vec<Packet> = Vec::with_capacity(packets.len());
    let mut i: usize = 0;
    while i < packets.len()
        invariant
            0 <= i <= packets@.len(),
            v@.len() == i,
            forall|j: int| 0 <= j < i ==> #[trigger] v@[j].deep_view() == packets@[j].deep_view(),
        decreases packets@.len() - i,
    {
        let p = packets[i].copy();
        v.push(p);
        i = i + 1;
    }
    assert(v.deep_view() =~= packets.deep_view());
    v
}

/// Packets whose decode times never go back.
pub open spec fn in_decode_order(packets: Seq<PacketView>) -> bool {
    forall|i: int, j: int| 0 <= i < j < packets.len() ==> packets[i].dts <= packets[j].dts
}

/// The packets decoded at time `dts`, in their order.
pub open spec fn decoded_at(packets: Seq<PacketView>, dts: i64) -> Seq<PacketView>
    decreases packets.len(),
{
    if packets.len() == 0 {
        Seq::empty()
    } else {
        let rest = decoded_at(packets.drop_last(), dts);
        if packets.last().dts == dts {
            rest.push(packets.last())
        } else {
            rest
        }
    }
}

proof fn lemma_decoded_at_concat(a: Seq<PacketView>, b: Seq<PacketView>, dts: i64)
    ensures
        decoded_at(a + b, dts) == decoded_at(a, dts) + decoded_at(b, dts),
    decreases b.len(),
{
    if b.len() == 0 {
        assert(a + b =~= a);
        assert(decoded_at(a, dts) + decoded_at(b, dts) =~= decoded_at(a, dts));
    } else {
        lemma_decoded_at_concat(a, b.drop_last(), dts);
        assert((a + b).drop_last() =~= a + b.drop_last());
        assert((a + b).last() == b.last());
        if b.last().dts == dts {
            assert(decoded_at(a, dts) + decoded_at(b.drop_last(), dts).push(b.last()) =~= (
            decoded_at(a, dts) + decoded_at(b.drop_last(), dts)).push(b.last()));
        }
    }
}

proof fn lemma_decoded_at_none(packets: Seq<PacketView>, dts: i64)
    requires
        forall|i: int| 0 <= i < packets.len() ==> (#[trigger] packets[i]).dts != dts,
    ensures
        decoded_at(packets, dts) == Seq::<PacketView>::empty(),
    decreases packets.len(),
{
    if packets.len() > 0 {
        let rest = packets.drop_last();
        assert forall|i: int| 0 <= i < rest.len() implies (#[trigger] rest[i]).dts != dts by {
            assert(rest[i] == packets[i]);
        }
        lemma_decoded_at_none(rest, dts);
        assert(packets.last() == packets[packets.len() - 1]);
    }
}

/// Picking the packets decoded at one time goes piece by piece: the
/// packets of two runs together are those of each, in order, and a single
/// packet is picked exactly when it is decoded at that time.
pub proof fn law_packets_decoded_at_a_time_are_picked_in_order(
    a: Seq<PacketView>,
    b: Seq<PacketView>,
    p: PacketView,
    dts: i64,
)
    ensures
        decoded_at(a + b, dts) == decoded_at(a, dts) + decoded_at(b, dts),
        decoded_at(seq![p], dts) == (if p.dts == dts {
            seq![p]
        } else {
            Seq::<PacketView>::empty()
        }),
        decoded_at(Seq::<PacketView>::empty(), dts) == Seq::<PacketView>::empty(),
{
    lemma_decoded_at_concat(a, b, dts);
    assert(seq![p].drop_last() =~= Seq::<PacketView>::empty());
    assert(seq![p].last() == p);
    assert(decoded_at(Seq::<PacketView>::empty(), dts) =~= Seq::<PacketView>::empty());
    assert(Seq::<PacketView>::empty().push(p) =~= seq![p]);
}

/// Puts `packet` into `packets`, which are in decode order, after every
/// packet decoded no later than it and before those decoded later.
fn insert_in_decode_order(packets: &mut Vec<Packet>, packet: Packet)
    requires
        in_decode_order(old(packets).deep_view()),
    ensures
        in_decode_order(final(packets).deep_view()),
        final(packets)@.len() == old(packets)@.len() + 1,
        forall|dts: i64|
            #[trigger] decoded_at(final(packets).deep_view(), dts) == (if packet.dts == dts {
                decoded_at(old(packets).deep_view(), dts).push(packet.deep_view())
            } else {
                decoded_at(old(packets).deep_view(), dts)
            }),
{
    let ghost before = packets.deep_view();
    let ghost x = packet.deep_view();
    let mut j: usize = packets.len();
    while j > 0 && packets[j - 1].dts > packet.dts
        invariant
            0 <= j <= packets@.len(),
            packets.deep_view() == before,
            forall|i: int| j <= i < before.len() ==> (#[trigger] before[i]).dts > packet.dts,
        decreases j,
    {
        j = j - 1;
    }
    proof {
        if j > 0 {
            assert(before[j - 1].dts <= packet.dts);
        }
    }
    packets.insert(j, packet);
    proof {
        let after = packets.deep_view();
        assert(after =~= before.insert(j as int, x));
        assert forall|a: int, b: int| 0 <= a < b < after.len() implies after[a].dts
            <= after[b].dts by {
            if b < j {
                assert(after[a] == before[a] && after[b] == before[b]);
            } else if b == j {
                assert(after[a] == before[a]);
                assert(before[a].dts <= before[j - 1].dts);
            } else if a > j {
                assert(after[a] == before[a - 1] && after[b] == before[b - 1]);
            } else if a == j {
                assert(after[b] == before[b - 1]);
            } else {
                assert(after[a] == before[a] && after[b] == before[b - 1]);
            }
        }
        let head = before.take(j as int);
        let tail = before.skip(j as int);
        assert(before =~= head + tail);
        assert(after =~= head + seq![x] + tail);
        assert forall|dts: i64| #[trigger] decoded_at(after, dts) == (if x.dts == dts {
            decoded_at(before, dts).push(x)
        } else {
            decoded_at(before, dts)
        }) by {
            lemma_decoded_at_concat(head, tail, dts);
            lemma_decoded_at_concat(head + seq![x], tail, dts);
            lemma_decoded_at_concat(head, seq![x], dts);
            assert(seq![x].drop_last() =~= Seq::<PacketView>::empty());
            assert(seq![x].last() == x);
            assert(decoded_at(Seq::<PacketView>::empty(), dts) =~= Seq::<PacketView>::empty());
            assert(decoded_at(seq![x], dts) == (if x.dts == dts {
                decoded_at(Seq::<PacketView>::empty(), dts).push(x)
            } else {
                decoded_at(Seq::<PacketView>::empty(), dts)
            }));
            if x.dts == dts {
                assert forall|i: int| 0 <= i < tail.len() implies (#[trigger] tail[i]).dts
                    != dts by {
                    assert(tail[i] == before[j + i]);
                }
                lemma_decoded_at_none(tail, dts);
                assert(decoded_at(tail, dts) =~= Seq::<PacketView>::empty());
                assert(decoded_at(after, dts) =~= decoded_at(before, dts).push(x));
            } else {
                assert(decoded_at(seq![x], dts) =~= Seq::<PacketView>::empty());
                assert(decoded_at(after, dts) =~= decoded_at(before, dts));
            }
        }
    }
}

/// The packets put in decode order: ordered by decode time, and packets
/// decoded at the same time kept in the order they came in.
pub fn decode_order(packets: Vec<Packet>) -> (out: Vec<Packet>)
    ensures
        out@.len() == packets@.len(),
        in_decode_order(out.deep_view()),
        forall|dts: i64| #[trigger] decoded_at(out.deep_view(), dts) == decoded_at(packets.deep_view(), dts),
{
    let ghost input = packets.deep_view();
    let mut out: Vec<Packet> = Vec::with_capacity(packets.len());
    let mut rest = packets;
    // `backwards` takes the input last packet first, so that popping it
    // hands the packets back in their order.
    let mut backwards: Vec<Packet> = Vec::with_capacity(rest.len());
    while rest.len() > 0
        invariant
            rest.deep_view() + backwards.deep_view().reverse() == input,
        decreases rest@.len(),
    {
        let ghost r = rest.deep_view();
        let ghost b = backwards.deep_view();
        let p = rest.pop().unwrap();
        backwards.push(p);
        proof {
            assert(rest.deep_view() =~= r.drop_last());
            assert(backwards.deep_view() =~= b.push(r.last()));
            assert(backwards.deep_view().reverse() =~= seq![r.last()] + b.reverse());
            assert(r =~= r.drop_last() + seq![r.last()]);
            assert(rest.deep_view() + backwards.deep_view().reverse() =~= input);
        }
    }
    proof {
        assert(rest.deep_view() =~= Seq::<PacketView>::empty());
        assert(backwards.deep_view().reverse() =~= input);
        assert(input.skip(0) =~= input);
    }
    while backwards.len() > 0
        invariant
            backwards.deep_view().reverse() == input.skip(out@.len() as int),
            in_decode_order(out.deep_view()),
            forall|dts: i64| #[trigger] decoded_at(out.deep_view(), dts) == decoded_at(
                input.take(out@.len() as int),
                dts,
            ),
            out@.len() + backwards@.len() == input.len(),
        decreases backwards@.len(),
    {
        let ghost n = out@.len() as int;
        let ghost b = backwards.deep_view();
        let p = backwards.pop().unwrap();
        proof {
            assert(backwards.deep_view() =~= b.drop_last());
            assert(b.reverse() =~= seq![b.last()] + b.drop_last().reverse());
            assert(input.skip(n)[0] == b.reverse()[0]);
            assert(input[n] == b.last());
            assert(p.deep_view() == b.last());
            assert(input.skip(n + 1) =~= input.skip(n).drop_first());
            assert(b.reverse().drop_first() =~= b.drop_last().reverse());
            assert(backwards.deep_view().reverse() =~= input.skip(n + 1));
        }
        insert_in_decode_order(&mut out, p);
        proof {
            assert(input.take(n + 1).drop_last() =~= input.take(n));
            assert(input.take(n + 1).last() == input[n]);
        }
    }
    proof {
        assert(input.take(input.len() as int) =~= input);
    }
    out
}

/// How a recorded audio track is encoded.
#[derive(Debug)]
pub struct AudioFormat {
    pub sample_rate: u32,
    pub channels: u32,
    pub extradata: Vec<u8>,
    pub label: String,
}

/// An audio format as a mathematical value.
pub struct AudioFormatView {
    pub sample_rate: u32,
    pub channels: u32,
    pub extradata: Seq<u8>,
    pub label: Seq<char>,
}

impl DeepView for AudioFormat {
    type V = AudioFormatView;

    open spec fn deep_view(&self) -> AudioFormatView {
        AudioFormatView {
            sample_rate: self.sample_rate,
            channels: self.channels,
            extradata: self.extradata@,
            label: self.label@,
        }
    }
}

impl AudioFormat {
    /// An exact copy of this format.
    pub fn copy(&self) -> (f: AudioFormat)
        ensures
            f.deep_view() == self.deep_view(),
    {
        AudioFormat {
            sample_rate: self.sample_rate,
            channels: self.channels,
            extradata: copy_bytes(&self.extradata),
            label: self.label.clone(),
        }
    }
}

/// One recorded audio track of a clip: its format and its packets.
#[derive(Debug)]
pub struct AudioSource {
    pub format: AudioFormat,
    pub packets: Vec<Packet>,
}

/// An audio source as a mathematical value.
pub struct AudioSourceView {
    pub format: AudioFormatView,
    pub packets: Seq<PacketView>,
}

impl DeepView for AudioSource {
    type V = AudioSourceView;

    open spec fn deep_view(&self) -> AudioSourceView {
        AudioSourceView { format: self.format.deep_view(), packets: self.packets.deep_view() }
    }
}

/// An audio track as it is written into a clip file.
#[derive(Debug)]
pub struct AudioTrack {
    pub sample_rate: u32,
    pub channels: u32,
    pub extradata: Vec<u8>,
    pub packets: Vec<Packet>,
    pub label: String,
}

/// An audio track as a mathematical value.
pub struct AudioTrackView {
    pub sample_rate: u32,
    pub channels: u32,
    pub extradata: Seq<u8>,
    pub packets: Seq<PacketView>,
    pub label: Seq<char>,
}

impl DeepView for AudioTrack {
    type V = AudioTrackView;

    open spec fn deep_view(&self) -> AudioTrackView {
        AudioTrackView {
            sample_rate: self.sample_rate,
            channels: self.channels,
            extradata: self.extradata@,
            packets: self.packets.deep_view(),
            label: self.label@,
        }
    }
}

/// The video track of a clip file.
#[derive(Debug)]
pub struct TrackInfo {
    pub width: u32,
    pub height: u32,
    pub fps: u32,
    pub time_base_den: i64,
    pub codec: ClipCodec,
    pub extradata: Vec<u8>,
}

/// A clip read back from its file: the video track and its packets, the
/// audio tracks (the mix first, then the separate tracks), and the time at
/// which it starts playing.
#[derive(Debug)]
pub struct SourceClip {
    pub track: TrackInfo,
    pub video: Vec<Packet>,
    pub audio: Vec<AudioSource>,
    pub first_pts: i64,
}

/// Why the packets read out of a clip file do not make a clip.
#[derive(Debug, Clone, Copy, PartialEq, Eq, Structural)]
pub enum ReadError {
    /// The file holds no video frame.
    NoVideo,
}

/// `after` holds the same packets as `before`, put in decode order.
pub open spec fn ordered_from(after: Seq<PacketView>, before: Seq<PacketView>) -> bool {
    &&& after.len() == before.len()
    &&& in_decode_order(after)
    &&& forall|dts: i64| #[trigger] decoded_at(after, dts) == decoded_at(before, dts)
}

/// Each audio source put in decode order, in their order.
fn order_audio(audio: Vec<AudioSource>) -> (out: Vec<AudioSource>)
    ensures
        out@.len() == audio@.len(),
        forall|k: int|
            0 <= k < audio@.len() ==> {
                &&& (#[trigger] out@[k]).format.deep_view() == audio@[k].format.deep_view()
                &&& ordered_from(out@[k].packets.deep_view(), audio@[k].packets.deep_view())
            },
{
    let ghost input = audio@;
    let mut rest = audio;
    let mut backwards: Vec<AudioSource> = Vec::new();
    while rest.len() > 0
        invariant
            rest@ + backwards@.reverse() == input,
        decreases rest@.len(),
    {
        let ghost r = rest@;
        let ghost b = backwards@;
        let source = rest.pop().unwrap();
        backwards.push(source);
        proof {
            assert(backwards@.reverse() =~= seq![r.last()] + b.reverse());
            assert(r =~= r.drop_last() + seq![r.last()]);
            assert(rest@ + backwards@.reverse() =~= input);
        }
    }
    proof {
        assert(backwards@.reverse() =~= input);
        assert(input.skip(0) =~= input);
    }
    let mut out: Vec<AudioSource> = Vec::new();
    while backwards.len() > 0
        invariant
            backwards@.reverse() == input.skip(out@.len() as int),
            out@.len() + backwards@.len() == input.len(),
            forall|k: int|
                0 <= k < out@.len() ==> {
                    &&& (#[trigger] out@[k]).format.deep_view() == input[k].format.deep_view()
                    &&& ordered_from(out@[k].packets.deep_view(), input[k].packets.deep_view())
                },
        decreases backwards@.len(),
    {
        let ghost n = out@.len() as int;
        let ghost b = backwards@;
        let source = backwards.pop().unwrap();
        proof {
            assert(b.reverse() =~= seq![b.last()] + b.drop_last().reverse());
            assert(input.skip(n)[0] == b.reverse()[0]);
            assert(source == input[n]);
            assert(input.skip(n + 1) =~= input.skip(n).drop_first());
            assert(b.reverse().drop_first() =~= b.drop_last().reverse());
        }
        let packets = decode_order(source.packets);
        out.push(AudioSource { format: source.format, packets });
    }
    out
}

/// A clip made of the packets read out of its file: the video and every
/// audio source put in decode order, starting at `start` or, when the file
/// gives no start, at the first video packet. Fails when there is no video.
pub fn assemble_clip(track: TrackInfo, video: Vec<Packet>, audio: Vec<AudioSource>, start: Option<i64>) -> (r: Result<SourceClip, ReadError>)
    ensures
        match r {
            Ok(clip) => {
                &&& video@.len() > 0
                &&& clip.track == track
                &&& ordered_from(clip.video.deep_view(), video.deep_view())
                &&& clip.audio@.len() == audio@.len()
                &&& forall|k: int|
                    0 <= k < audio@.len() ==> {
                        &&& (#[trigger] clip.audio@[k]).format.deep_view()
                            == audio@[k].format.deep_view()
                        &&& ordered_from(
                            clip.audio@[k].packets.deep_view(),
                            audio@[k].packets.deep_view(),
                        )
                    }
                &&& clip.first_pts == match start {
                    Some(t) => t,
                    None => clip.video@[0].pts,
                }
            },
            Err(e) => video@.len() == 0 && e == ReadError::NoVideo,
        },
{
    if video.len() == 0 {
        return Err(ReadError::NoVideo);
    }
    let video = decode_order(video);
    let audio = order_audio(audio);
    let first_pts = match start {
        Some(t) => t,
        None => video[0].pts,
    };
    Ok(SourceClip { track, video, audio, first_pts })
}

/// Whether `word` occurs in `text`.
pub open spec fn mentions(text: Seq<char>, word: Seq<char>) -> bool {
    exists|i: int| 0 <= i && i + word.len() <= text.len() && #[trigger] text.subrange(i, i + word.len()) == word
}

/// Whether a stream's metadata value can stand as its label: it says
/// something, and it is not the placeholder a muxer writes (which mentions
/// "Handler").
pub open spec fn names_a_track(value: Seq<char>) -> bool {
    value.len() > 0 && !mentions(value, "Handler"@)
}

/// The label of an audio stream: its title if that names it, else its
/// handler name if that does, else nothing.
pub open spec fn label_of(title: Option<Seq<char>>, handler: Option<Seq<char>>) -> Seq<char> {
    match title {
        Some(t) if names_a_track(t) => t,
        _ => match handler {
            Some(h) if names_a_track(h) => h,
            _ => Seq::empty(),
        },
    }
}

fn mentions_handler(text: &str) -> (found: bool)
    ensures
        found == mentions(text@, "Handler"@),
{
    let word = "Handler";
    proof {
        reveal_strlit("Handler");
    }
    let n = text.unicode_len();
    let m = word.unicode_len();
    if n < m {
        assert(!mentions(text@, word@));
        return false;
    }
    let mut i: usize = 0;
    while i <= n - m
        invariant
            word@ == "Handler"@,
            n == text@.len(),
            m == word@.len(),
            m <= n,
            0 <= i <= n - m + 1,
            forall|k: int| 0 <= k < i ==> #[trigger] text@.subrange(k, k + m) != word@,
        decreases n - i,
    {
        let mut j: usize = 0;
        while j < m && text.get_char(i + j) == word.get_char(j)
            invariant
                n == text@.len(),
                m == word@.len(),
                i + m <= n,
                0 <= j <= m,
                forall|l: int| 0 <= l < j ==> text@[i + l] == word@[l],
            decreases m - j,
        {
            j = j + 1;
        }
        if j == m {
            assert(text@.subrange(i as int, i + m) =~= word@);
            assert(text@.subrange(i as int, i + word@.len()) == word@);
            return true;
        }
        assert(text@.subrange(i as int, i + m)[j as int] != word@[j as int]);
        i = i + 1;
    }
    assert forall|k: int| 0 <= k && k + m <= n implies #[trigger] text@.subrange(k, k + m) != word@
        by {
        assert(k < i);
    }
    false
}

fn names_track(value: &str) -> (b: bool)
    ensures
        b == names_a_track(value@),
{
    value.unicode_len() > 0 && !mentions_handler(value)
}

/// The label of an audio stream, from its `title` and `handler_name`
/// metadata as the file holds them.
pub fn stream_label(title: Option<&str>, handler: Option<&str>) -> (label: String)
    ensures
        label@ == label_of(
            match title {
                Some(t) => Some(t@),
                None => None,
            },
            match handler {
                Some(h) => Some(h@),
                None => None,
            },
        ),
{
    if let Some(t) = title {
        if names_track(t) {
            return t.to_owned();
        }
    }
    if let Some(h) = handler {
        if names_track(h) {
            return h.to_owned();
        }
    }
    String::new()
}

} // verus!
