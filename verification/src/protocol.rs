//! Values that travel between the launcher and the capture engine.
//!
//! Paths are carried as `String`s here; the wire format (JSON, one message
//! per line) is produced by the application layer.

use vstd::prelude::*;
use vstd::string::{StrSliceExecFns, StringExecFns};

verus! {

/// Version of the launcher/engine protocol.
pub const PROTOCOL_VERSION: u32 = 4;

/// Milliseconds between two loudness peaks of a recorded audio track.
pub const PEAK_STEP_MS: u32 = 20;

/// Where the engine records its sound from.
#[derive(Debug, Clone, Copy, PartialEq, Eq, Structural)]
pub enum AudioSourceChoice {
    System,
    GameOnly,
    Both,
}

/// Which video encoder the user asked for.
#[derive(Debug, Clone, Copy, PartialEq, Eq, Structural)]
pub enum EncoderPreference {
    Auto,
    Nvenc,
    Amf,
    QuickSync,
    VideoToolbox,
    Software,
}

/// Video codecs a clip can be recorded in.
#[derive(Debug, Clone, Copy, PartialEq, Eq, Structural)]
pub enum ClipCodec {
    H264,
    H265,
    Av1,
}

impl ClipCodec {
    /// Every codec, lightest first.
    pub fn all() -> (codecs: [ClipCodec; 3])
        ensures
            codecs@ == seq![ClipCodec::H264, ClipCodec::H265, ClipCodec::Av1],
    {
        let codecs = [ClipCodec::H264, ClipCodec::H265, ClipCodec::Av1];
        assert(codecs@ =~= seq![ClipCodec::H264, ClipCodec::H265, ClipCodec::Av1]);
        codecs
    }
}

/// One line of the engine's encoder probe: can `encoder` encode `codec` here?
#[derive(Debug, Clone)]
pub struct EncoderCapability {
    pub codec: ClipCodec,
    pub encoder: EncoderPreference,
    pub available: bool,
    pub hardware: bool,
    pub detail: Option<String>,
    pub driver_too_old: bool,
}

/// An audio device the engine can record from.
#[derive(Debug, Clone)]
pub struct AudioDeviceInfo {
    pub id: String,
    pub name: String,
    pub is_default: bool,
}

/// Why a clip was saved.
#[derive(Debug, Clone)]
pub enum ClipReason {
    Manual,
    Event(String),
}

/// A request to save the buffered seconds as a clip.
#[derive(Debug, Clone)]
pub struct SaveClipRequest {
    pub pre_roll_seconds: u32,
    pub post_roll_seconds: u32,
    pub reason: ClipReason,
}

/// What the engine reports once it is up.
#[derive(Debug, Clone)]
pub struct ReadyInfo {
    pub protocol_version: u32,
    pub engine_version: String,
    pub available_encoders: Vec<EncoderPreference>,
    pub capabilities: Vec<EncoderCapability>,
    pub adapter: String,
    pub audio_devices: Vec<AudioDeviceInfo>,
    pub microphones: Vec<AudioDeviceInfo>,
    pub supports_game_only_audio: bool,
}

/// What the capture engine is doing.
#[derive(Debug, Clone, Copy, PartialEq, Eq, Structural)]
pub enum CaptureState {
    Idle,
    Attaching,
    Buffering,
    Paused,
    BlockedFullscreenExclusive,
    Failed,
}

impl CaptureState {
    /// A clip can only be saved while the engine is buffering.
    pub fn can_save(&self) -> (b: bool)
        ensures
            b <==> *self == CaptureState::Buffering,
    {
        match self {
            CaptureState::Buffering => true,
            _ => false,
        }
    }
}

/// One audio track of a saved clip.
#[derive(Debug, Clone)]
pub struct ClipAudioTrack {
    pub label: String,
    pub stream: u32,
    pub adjustable: bool,
    pub peaks: Vec<u8>,
}

/// The kinds of failure the engine reports.
#[derive(Debug, Clone, Copy, PartialEq, Eq, Structural)]
pub enum ErrorCode {
    WindowNotFound,
    EncoderUnavailable,
    GraphicsDevice,
    AudioDevice,
    ClipWrite,
    BufferEmpty,
    NotRecording,
    Paused,
    Internal,
    Protocol,
}

/// A failure the engine reports to the launcher.
#[derive(Debug, Clone)]
pub struct CaptureError {
    pub code: ErrorCode,
    pub message: String,
    pub recoverable: bool,
}

/// A request to split a clip's audio tracks into files for previewing.
#[derive(Debug, Clone)]
pub struct AudioPreviewRequest {
    pub source: String,
}

/// One previewable audio track.
#[derive(Debug, Clone)]
pub struct PreviewTrack {
    pub stream: u32,
    pub label: String,
    pub path: String,
}

/// The previewable audio tracks of a clip.
#[derive(Debug, Clone)]
pub struct AudioPreview {
    pub source: String,
    pub tracks: Vec<PreviewTrack>,
}

/// The corner an arrow overlay points to.
#[derive(Debug, Clone, Copy, PartialEq, Eq, Structural)]
pub enum Corner {
    TopLeft,
    TopRight,
    BottomLeft,
    BottomRight,
}

/// What an overlay draws.
#[derive(Debug, Clone)]
pub enum OverlayKind {
    Blur { strength: u32 },
    Box { colour: u32 },
    Arrow { colour: u32, thickness: u32, towards: Corner },
    Text { content: String, size: u32, colour: u32 },
}

/// The shape a clip is cut to when it is exported.
#[derive(Debug, Clone, Copy, PartialEq, Eq, Structural)]
pub enum ClipShape {
    Vertical,
    Square,
    Wide,
    Original,
}

/// The aspect ratio of a shape, across by down; `None` keeps the source's.
pub open spec fn shape_ratio(shape: ClipShape) -> Option<(i64, i64)> {
    match shape {
        ClipShape::Vertical => Some((9, 16)),
        ClipShape::Square => Some((1, 1)),
        ClipShape::Wide => Some((21, 9)),
        ClipShape::Original => None,
    }
}

impl ClipShape {
    /// The aspect ratio of this shape, across by down; `None` keeps the source's.
    pub fn ratio(self) -> (r: Option<(i64, i64)>)
        ensures
            r == shape_ratio(self),
    {
        match self {
            ClipShape::Vertical => Some((9, 16)),
            ClipShape::Square => Some((1, 1)),
            ClipShape::Wide => Some((21, 9)),
            ClipShape::Original => None,
        }
    }
}

/// How far an export has come, in frames.
#[derive(Debug, Clone)]
pub struct ExportProgress {
    pub source: String,
    pub done: u32,
    pub total: u32,
}

/// A request to turn a clip into a GIF.
#[derive(Debug, Clone)]
pub struct ExportGifRequest {
    pub source: String,
    pub destination: String,
}

/// The volume a track gets when a configuration leaves it out.
pub fn default_volume() -> (v: u32)
    ensures
        v == 100,
{
    100
}

impl Default for AudioSourceChoice {
    fn default() -> (r: Self)
        ensures
            r == AudioSourceChoice::System,
    {
        AudioSourceChoice::System
    }
}

impl Default for ClipCodec {
    fn default() -> (r: Self)
        ensures
            r == ClipCodec::H264,
    {
        ClipCodec::H264
    }
}

impl Default for Corner {
    fn default() -> (r: Self)
        ensures
            r == Corner::BottomRight,
    {
        Corner::BottomRight
    }
}

impl Default for ClipShape {
    fn default() -> (r: Self)
        ensures
            r == ClipShape::Vertical,
    {
        ClipShape::Vertical
    }
}

/// The name of the pipe over which the launcher and the engine of session
/// `session_id` talk.
pub fn pipe_name(session_id: &str) -> (name: String)
    ensures
        name@ == "\\\\.\\pipe\\norisk-capture-"@ + session_id@,
{
    let mut name = String::from_str("\\\\.\\pipe\\norisk-capture-");
    name.append(session_id);
    name
}

/// Appends `c` to `s` (std's `String::push`).
#[verifier::external_body]
pub(crate) fn push_char(s: &mut String, c: char)
    ensures
        final(s)@ == old(s)@.push(c),
{
    s.push(c);
}

/// How one character of an event's name appears in a file name: ASCII
/// letters and digits as themselves, capitals made small, anything else as
/// an underscore.
pub open spec fn slug_char(c: char) -> char {
    if ('a' <= c && c <= 'z') || ('0' <= c && c <= '9') {
        c
    } else if 'A' <= c && c <= 'Z' {
        ((c as u32) + 32) as char
    } else {
        '_'
    }
}

/// The part of a clip's file name that says why it was saved.
pub open spec fn slug_of(reason: ClipReason) -> Seq<char> {
    match reason {
        ClipReason::Manual => "clip"@,
        ClipReason::Event(kind) => kind@.map_values(|c: char| slug_char(c)),
    }
}

/// Whether `c` may stand in a clip's file name: a small ASCII letter, a
/// digit or an underscore.
pub open spec fn file_name_safe(c: char) -> bool {
    ('a' <= c && c <= 'z') || ('0' <= c && c <= '9') || c == '_'
}

/// A slug holds only small ASCII letters, digits and underscores, one for
/// each character of the event's name.
pub proof fn law_a_slug_is_safe_in_a_file_name(reason: ClipReason)
    ensures
        forall|i: int| 0 <= i < slug_of(reason).len() ==> file_name_safe(#[trigger] slug_of(reason)[i]),
        reason matches ClipReason::Event(kind) ==> slug_of(reason).len() == kind@.len(),
{
    reveal_strlit("clip");
}

fn slug_char_of(c: char) -> (r: char)
    ensures
        r == slug_char(c),
{
    if ('a' <= c && c <= 'z') || ('0' <= c && c <= '9') {
        c
    } else if 'A' <= c && c <= 'Z' {
        let b = (c as u8) + 32;
        b as char
    } else {
        '_'
    }
}

impl ClipReason {
    /// A name for the reason that is safe in a file name: `clip` for a
    /// clip saved by hand, else the event's name with every character that
    /// is not an ASCII letter or digit replaced by an underscore and
    /// capitals made small.
    pub fn slug(&self) -> (s: String)
        ensures
            s@ == slug_of(*self),
    {
        match self {
            ClipReason::Manual => String::from_str("clip"),
            ClipReason::Event(kind) => {
                let text = kind.as_str();
                let n = text.unicode_len();
                let mut out = String::new();
                let mut i: usize = 0;
                while i < n
                    invariant
                        n == text@.len(),
                        text@ == kind@,
                        0 <= i <= n,
                        out@ == text@.take(i as int).map_values(|c: char| slug_char(c)),
                    decreases n - i,
                {
                    let c = text.get_char(i);
                    push_char(&mut out, slug_char_of(c));
                    assert(text@.take(i + 1).map_values(|c: char| slug_char(c)) =~= text@.take(
                        i as int,
                    ).map_values(|c: char| slug_char(c)).push(slug_char(c)));
                    i = i + 1;
                }
                assert(text@.take(n as int) =~= text@);
                out
            },
        }
    }
}

/// Ends a message with the newline that closes it on the wire.
pub fn end_line(body: String) -> (line: String)
    ensures
        line@ == body@.push('\n'),
{
    let mut line = body;
    push_char(&mut line, '\n');
    line
}

/// `line` without the line breaks (`\r` and `\n`) at its end.
pub open spec fn unbroken(line: Seq<char>) -> Seq<char>
    decreases line.len(),
{
    if line.len() > 0 && (line.last() == '\r' || line.last() == '\n') {
        unbroken(line.drop_last())
    } else {
        line
    }
}

/// The message a line holds: the line without the `\r` and `\n` that
/// end it, so that lines ended either way read the same.
pub fn line_body(line: &str) -> (body: &str)
    ensures
        body@ == unbroken(line@),
{
    let n = line.unicode_len();
    let mut end = n;
    assert(line@.take(n as int) =~= line@);
    while end > 0 && (line.get_char(end - 1) == '\r' || line.get_char(end - 1) == '\n')
        invariant
            n == line@.len(),
            0 <= end <= n,
            unbroken(line@) == unbroken(line@.take(end as int)),
        decreases end,
    {
        assert(line@.take(end as int).drop_last() =~= line@.take(end - 1));
        end = end - 1;
    }
    proof {
        if end > 0 {
            assert(line@.take(end as int).last() == line@[end - 1]);
        }
        assert(unbroken(line@.take(end as int)) == line@.take(end as int));
    }
    line.substring_char(0, end)
}

/// A message ended with `end_line` reads back as itself through
/// `line_body`, as long as it does not itself end in a line break (which a
/// JSON text never does).
pub proof fn law_a_framed_message_reads_back(body: Seq<char>)
    requires
        body.len() == 0 || (body.last() != '\r' && body.last() != '\n'),
    ensures
        unbroken(body.push('\n')) == body,
{
    assert(body.push('\n').drop_last() =~= body);
    assert(unbroken(body) == body);
    assert(unbroken(body.push('\n')) == unbroken(body));
}

} // verus!
