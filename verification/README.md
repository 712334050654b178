# norisk_capture

The verified core of a game-clip capture engine: the values the launcher
and the engine exchange, how an encoder is chosen, and the integer and
byte-level work behind saving, trimming, reshaping and turning clips into
GIFs. Every function in `src/` carries a contract that Verus proves, but
for two small trusted wrappers whose contracts Verus takes as given: one
around std's `String::push` (`src/protocol.rs`) and one around the `gif`
crate's quantiser, `gif::Frame::from_rgb_speed` (`src/gif.rs`).

## Layout

- `src/protocol.rs`: the launcher/engine messages' plain values, the pipe
  name, clip-reason slugs, and the line framing of the wire format.
- `src/selection.rs`: resolving an encoder preference and picking a codec
  and encoder from the machine's capabilities.
- `src/media.rs`: packets and audio sources, decode order, and assembling a
  clip from the packets read out of its file.
- `src/trim.rs`: where a cut starts and ends, moving and windowing each
  audio track, which audio a cut carries, sizes and end times.
- `src/vertical.rs`: centre crops to a shape, which packets the decoder is
  fed, which decoded frames are kept.
- `src/gaps.rs`: stretches cut out of an export and how the rest closes up.
- `src/overlay.rs`: blurring and stamping rectangles of a frame's planes,
  and keeping stamps from frame to frame.
- `src/gif.rs`: the GIF's size, the box filter that scales planes, frame
  pacing, and quantising a frame (through the `gif` crate).
- `src/system.rs`: how the machine is described in the log.
- `app/`: what stays outside the proof: the JSON types (serde), the
  editor's floating-point seconds and volumes, colour conversion, arrows
  and text (ab_glyph), the noise filter (nnnoiseless), writing GIF files,
  logging and the fault switch.
- `tests/`: tests of the library, run against the compiled crate.
