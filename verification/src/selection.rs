//! Choosing the codec and encoder a clip is recorded with.

use vstd::prelude::*;

use crate::protocol::{ClipCodec, EncoderCapability, EncoderPreference};

verus! {

/// What `preference.resolve(available)` picks: nothing when nothing is
/// available, the first available encoder for `Auto` or for an encoder
/// that is not available, and the asked-for encoder when it is.
pub open spec fn resolved(
    preference: EncoderPreference,
    available: Seq<EncoderPreference>,
) -> Option<EncoderPreference> {
    if available.len() == 0 {
        None
    } else if preference == EncoderPreference::Auto {
        Some(available[0])
    } else if available.contains(preference) {
        Some(preference)
    } else {
        Some(available[0])
    }
}

impl EncoderPreference {
    /// Picks an encoder out of `available`, in the order the engine ranks them.
    pub fn resolve(self, available: &[EncoderPreference]) -> (r: Option<EncoderPreference>)
        ensures
            r == resolved(self, available@),
    {
        if available.len() == 0 {
            return None;
        }
        if self == EncoderPreference::Auto {
            return Some(available[0]);
        }
        let mut i: usize = 0;
        while i < available.len()
            invariant
                0 <= i <= available@.len(),
                self != EncoderPreference::Auto,
                forall|j: int| 0 <= j < i ==> available@[j] != self,
            decreases available@.len() - i,
        {
            if available[i] == self {
                assert(available@[i as int] == self);
                assert(available@.contains(self));
                return Some(self);
            }
            i = i + 1;
        }
        Some(available[0])
    }
}

/// Whether a capability line offers `codec`, and in hardware when only
/// hardware will do.
pub open spec fn offers(cap: EncoderCapability, codec: ClipCodec, hardware_only: bool) -> bool {
    cap.codec == codec && cap.available && (cap.hardware || !hardware_only)
}

/// The encoders that `caps` offer for `codec`, in the order the lines come.
pub open spec fn usable(
    caps: Seq<EncoderCapability>,
    codec: ClipCodec,
    hardware_only: bool,
) -> Seq<EncoderPreference>
    decreases caps.len(),
{
    if caps.len() == 0 {
        Seq::empty()
    } else {
        let rest = usable(caps.drop_last(), codec, hardware_only);
        if offers(caps.last(), codec, hardware_only) {
            rest.push(caps.last().encoder)
        } else {
            rest
        }
    }
}

/// The first codec in `order` for which `preference` resolves to an encoder
/// among those offered, with that encoder.
pub open spec fn first_usable(
    order: Seq<ClipCodec>,
    caps: Seq<EncoderCapability>,
    preference: EncoderPreference,
    hardware_only: bool,
) -> Option<(ClipCodec, EncoderPreference)>
    decreases order.len(),
{
    if order.len() == 0 {
        None
    } else {
        match resolved(preference, usable(caps, order[0], hardware_only)) {
            Some(encoder) => Some((order[0], encoder)),
            None => first_usable(order.drop_first(), caps, preference, hardware_only),
        }
    }
}

/// The codecs tried, asked-for first, then H.264, then the rest lightest first.
pub open spec fn codec_order(codec: ClipCodec) -> Seq<ClipCodec> {
    match codec {
        ClipCodec::H264 => seq![ClipCodec::H264, ClipCodec::H265, ClipCodec::Av1],
        ClipCodec::H265 => seq![ClipCodec::H265, ClipCodec::H264, ClipCodec::Av1],
        ClipCodec::Av1 => seq![ClipCodec::Av1, ClipCodec::H264, ClipCodec::H265],
    }
}

/// The codecs tried when any encoder will do: H.264 first, as it is the
/// lightest to encode, then the others in the order of `codec_order`.
pub open spec fn fallback_order(codec: ClipCodec) -> Seq<ClipCodec> {
    match codec {
        ClipCodec::Av1 => seq![ClipCodec::H264, ClipCodec::Av1, ClipCodec::H265],
        _ => seq![ClipCodec::H264, ClipCodec::H265, ClipCodec::Av1],
    }
}

/// The pairing `select_encoder` settles on: unless the processor was asked
/// for, hardware encoders are tried first in `codec_order`; then any
/// encoder, in `fallback_order` (or in `codec_order` when the processor was
/// asked for).
pub open spec fn selected(
    codec: ClipCodec,
    preference: EncoderPreference,
    caps: Seq<EncoderCapability>,
) -> Option<(ClipCodec, EncoderPreference)> {
    if preference == EncoderPreference::Software {
        first_usable(codec_order(codec), caps, preference, false)
    } else {
        match first_usable(codec_order(codec), caps, preference, true) {
            Some(pair) => Some(pair),
            None => first_usable(fallback_order(codec), caps, preference, false),
        }
    }
}

/// The encoders that `caps` offer for `codec`, in order.
fn usable_encoders(
    capabilities: &[EncoderCapability],
    codec: ClipCodec,
    hardware_only: bool,
) -> (v: Vec<EncoderPreference>)
    ensures
        v@ == usable(capabilities@, codec, hardware_only),
{
    let mut v: Vec<EncoderPreference> = Vec::new();
    let mut i: usize = 0;
    while i < capabilities.len()
        invariant
            0 <= i <= capabilities@.len(),
            v@ == usable(capabilities@.take(i as int), codec, hardware_only),
        decreases capabilities@.len() - i,
    {
        let c = &capabilities[i];
        assert(capabilities@.take(i + 1).drop_last() =~= capabilities@.take(i as int));
        if c.codec == codec && c.available && (c.hardware || !hardware_only) {
            v.push(c.encoder);
        }
        i = i + 1;
    }
    assert(capabilities@.take(capabilities@.len() as int) =~= capabilities@);
    v
}

/// Tries the codecs of `order` one after another.
fn first_usable_in(
    order: &Vec<ClipCodec>,
    capabilities: &[EncoderCapability],
    preference: EncoderPreference,
    hardware_only: bool,
) -> (r: Option<(ClipCodec, EncoderPreference)>)
    ensures
        r == first_usable(order@, capabilities@, preference, hardware_only),
{
    let mut i: usize = 0;
    assert(order@.skip(0) =~= order@);
    while i < order.len()
        invariant
            0 <= i <= order@.len(),
            first_usable(order@, capabilities@, preference, hardware_only) == first_usable(
                order@.skip(i as int),
                capabilities@,
                preference,
                hardware_only,
            ),
        decreases order@.len() - i,
    {
        let candidate = order[i];
        let available = usable_encoders(capabilities, candidate, hardware_only);
        assert(order@.skip(i as int)[0] == candidate);
        assert(order@.skip(i as int).drop_first() =~= order@.skip(i + 1));
        match preference.resolve(available.as_slice()) {
            Some(encoder) => {
                return Some((candidate, encoder));
            },
            None => {},
        }
        i = i + 1;
    }
    None
}

/// Picks the codec and encoder a recording uses, given what the machine can
/// do. Hardware encoders are preferred (unless the processor was asked
/// for), the asked-for codec before the others; when no hardware encoder
/// works, H.264 on whatever encoder is left. `None` only when no capability
/// line is available at all.
pub fn select_encoder(
    codec: ClipCodec,
    preference: EncoderPreference,
    capabilities: &[EncoderCapability],
) -> (r: Option<(ClipCodec, EncoderPreference)>)
    ensures
        r == selected(codec, preference, capabilities@),
{
    let codecs: Vec<ClipCodec> = match codec {
        ClipCodec::H264 => vec![ClipCodec::H264, ClipCodec::H265, ClipCodec::Av1],
        ClipCodec::H265 => vec![ClipCodec::H265, ClipCodec::H264, ClipCodec::Av1],
        ClipCodec::Av1 => vec![ClipCodec::Av1, ClipCodec::H264, ClipCodec::H265],
    };
    assert(codecs@ =~= codec_order(codec));

    if preference == EncoderPreference::Software {
        return first_usable_in(&codecs, capabilities, preference, false);
    }
    match first_usable_in(&codecs, capabilities, preference, true) {
        Some(pair) => {
            return Some(pair);
        },
        None => {},
    }
    let mut order: Vec<ClipCodec> = Vec::new();
    order.push(ClipCodec::H264);
    let mut i: usize = 0;
    while i < codecs.len()
        invariant
            0 <= i <= codecs@.len(),
            codecs@ == codec_order(codec),
            order@ == seq![ClipCodec::H264] + codecs@.take(i as int).filter(
                |c: ClipCodec| c != ClipCodec::H264,
            ),
        decreases codecs@.len() - i,
    {
        assert(codecs@.take(i + 1).drop_last() =~= codecs@.take(i as int));
        reveal_with_fuel(Seq::filter, 1);
        if codecs[i] != ClipCodec::H264 {
            order.push(codecs[i]);
        }
        i = i + 1;
    }
    assert(codecs@.take(3) =~= codecs@);
    reveal_with_fuel(Seq::filter, 4);
    assert(order@ =~= fallback_order(codec));
    first_usable_in(&order, capabilities, preference, false)
}

/// A resolved preference names one of the available encoders, exists
/// exactly when something is available, and is the asked-for encoder
/// whenever that one is available.
pub proof fn law_resolve_picks_an_available_encoder(
    preference: EncoderPreference,
    available: Seq<EncoderPreference>,
)
    ensures
        resolved(preference, available) is Some <==> available.len() > 0,
        resolved(preference, available) matches Some(e) ==> available.contains(e),
        preference != EncoderPreference::Auto && available.contains(preference) ==> resolved(
            preference,
            available,
        ) == Some(preference),
{
    if available.len() > 0 {
        assert(available[0] == available[0]);
        assert(available.contains(available[0]));
    }
}

/// When any encoder will do (`Auto`), or the one asked for is not
/// available, the first available encoder is the one used: the engine lists
/// them best first.
pub proof fn law_resolve_falls_back_to_the_first_available(
    preference: EncoderPreference,
    available: Seq<EncoderPreference>,
)
    requires
        available.len() > 0,
        preference == EncoderPreference::Auto || !available.contains(preference),
    ensures
        resolved(preference, available) == Some(available[0]),
{
}

/// An encoder is among those offered for `codec` exactly when some
/// capability line offers it.
proof fn lemma_usable_contains(
    caps: Seq<EncoderCapability>,
    codec: ClipCodec,
    hardware_only: bool,
    encoder: EncoderPreference,
)
    ensures
        usable(caps, codec, hardware_only).contains(encoder) <==> exists|i: int|
            0 <= i < caps.len() && offers(#[trigger] caps[i], codec, hardware_only)
                && caps[i].encoder == encoder,
    decreases caps.len(),
{
    if caps.len() > 0 {
        let rest = caps.drop_last();
        lemma_usable_contains(rest, codec, hardware_only, encoder);
        let u = usable(caps, codec, hardware_only);
        let r = usable(rest, codec, hardware_only);
        if u.contains(encoder) {
            let k = choose|k: int| 0 <= k < u.len() && u[k] == encoder;
            if k < r.len() && offers(caps.last(), codec, hardware_only) {
                assert(r[k] == encoder);
                assert(r.contains(encoder));
                let i = choose|i: int|
                    0 <= i < rest.len() && offers(#[trigger] rest[i], codec, hardware_only)
                        && rest[i].encoder == encoder;
                assert(caps[i] == rest[i]);
            } else if offers(caps.last(), codec, hardware_only) {
                assert(caps[caps.len() - 1] == caps.last());
            } else {
                assert(r.contains(encoder));
                let i = choose|i: int|
                    0 <= i < rest.len() && offers(#[trigger] rest[i], codec, hardware_only)
                        && rest[i].encoder == encoder;
                assert(caps[i] == rest[i]);
            }
        }
        if exists|i: int|
            0 <= i < caps.len() && offers(#[trigger] caps[i], codec, hardware_only)
                && caps[i].encoder == encoder {
            let i = choose|i: int|
                0 <= i < caps.len() && offers(#[trigger] caps[i], codec, hardware_only)
                    && caps[i].encoder == encoder;
            if i == caps.len() - 1 {
                assert(u[u.len() - 1] == encoder);
                assert(u.contains(encoder));
            } else {
                assert(rest[i] == caps[i]);
                assert(r.contains(encoder));
                let k = choose|k: int| 0 <= k < r.len() && r[k] == encoder;
                if offers(caps.last(), codec, hardware_only) {
                    assert(u[k] == encoder);
                }
                assert(u.contains(encoder));
            }
        }
    }
}

/// Something is offered for `codec` exactly when some line offers `codec`.
proof fn lemma_usable_nonempty(caps: Seq<EncoderCapability>, codec: ClipCodec, hardware_only: bool)
    ensures
        usable(caps, codec, hardware_only).len() > 0 <==> exists|i: int|
            0 <= i < caps.len() && offers(#[trigger] caps[i], codec, hardware_only),
    decreases caps.len(),
{
    if caps.len() > 0 {
        let rest = caps.drop_last();
        lemma_usable_nonempty(rest, codec, hardware_only);
        if exists|i: int| 0 <= i < rest.len() && offers(#[trigger] rest[i], codec, hardware_only) {
            let i = choose|i: int|
                0 <= i < rest.len() && offers(#[trigger] rest[i], codec, hardware_only);
            assert(caps[i] == rest[i]);
        }
        if exists|i: int| 0 <= i < caps.len() && offers(#[trigger] caps[i], codec, hardware_only) {
            let i = choose|i: int|
                0 <= i < caps.len() && offers(#[trigger] caps[i], codec, hardware_only);
            if i < caps.len() - 1 {
                assert(rest[i] == caps[i]);
            }
        }
    }
}

/// Walking `order` finds a pairing exactly when some codec of it has an
/// encoder on offer; the pairing found is a codec of `order` with the
/// encoder the preference resolves to for it.
proof fn lemma_first_usable(
    order: Seq<ClipCodec>,
    caps: Seq<EncoderCapability>,
    preference: EncoderPreference,
    hardware_only: bool,
)
    ensures
        first_usable(order, caps, preference, hardware_only) is Some <==> exists|k: int|
            0 <= k < order.len() && usable(caps, #[trigger] order[k], hardware_only).len() > 0,
        first_usable(order, caps, preference, hardware_only) matches Some(pair) ==> order.contains(
            pair.0,
        ) && resolved(preference, usable(caps, pair.0, hardware_only)) == Some(pair.1),
    decreases order.len(),
{
    if order.len() > 0 {
        let rest = order.drop_first();
        lemma_first_usable(rest, caps, preference, hardware_only);
        law_resolve_picks_an_available_encoder(preference, usable(caps, order[0], hardware_only));
        if exists|k: int|
            0 <= k < rest.len() && usable(caps, #[trigger] rest[k], hardware_only).len() > 0 {
            let k = choose|k: int|
                0 <= k < rest.len() && usable(caps, #[trigger] rest[k], hardware_only).len() > 0;
            assert(order[k + 1] == rest[k]);
        }
        if exists|k: int|
            0 <= k < order.len() && usable(caps, #[trigger] order[k], hardware_only).len() > 0 {
            let k = choose|k: int|
                0 <= k < order.len() && usable(caps, #[trigger] order[k], hardware_only).len() > 0;
            if k > 0 {
                assert(rest[k - 1] == order[k]);
            }
        }
        match first_usable(order, caps, preference, hardware_only) {
            Some(pair) => {
                if pair.0 == order[0] {
                    assert(order.contains(pair.0));
                } else {
                    let k = choose|k: int| 0 <= k < rest.len() && rest[k] == pair.0;
                    assert(order[k + 1] == pair.0);
                }
            },
            None => {},
        }
    }
}

/// Every codec is tried in each order.
proof fn lemma_orders_cover(codec: ClipCodec, other: ClipCodec)
    ensures
        codec_order(codec).contains(other),
        fallback_order(codec).contains(other),
        codec_order(codec)[0] == codec,
{
    let a = codec_order(codec);
    let b = fallback_order(codec);
    assert(a[0] == codec_order(codec)[0]);
    if a[0] == other {
    } else if a[1] == other {
    } else {
        assert(a[2] == other);
    }
    if b[0] == other {
    } else if b[1] == other {
    } else {
        assert(b[2] == other);
    }
}

/// If `order` names every codec, walking it finds a pairing exactly when
/// some line offers anything.
proof fn lemma_covering_order(
    order: Seq<ClipCodec>,
    caps: Seq<EncoderCapability>,
    preference: EncoderPreference,
    hardware_only: bool,
)
    requires
        forall|c: ClipCodec| order.contains(c),
    ensures
        first_usable(order, caps, preference, hardware_only) is Some <==> exists|i: int|
            0 <= i < caps.len() && caps[i].available && (caps[i].hardware || !hardware_only),
{
    lemma_first_usable(order, caps, preference, hardware_only);
    if exists|i: int|
        0 <= i < caps.len() && caps[i].available && (caps[i].hardware || !hardware_only) {
        let i = choose|i: int|
            0 <= i < caps.len() && caps[i].available && (caps[i].hardware || !hardware_only);
        assert(offers(caps[i], caps[i].codec, hardware_only));
        lemma_usable_nonempty(caps, caps[i].codec, hardware_only);
        assert(order.contains(caps[i].codec));
        let k = choose|k: int| 0 <= k < order.len() && order[k] == caps[i].codec;
        assert(usable(caps, order[k], hardware_only).len() > 0);
    }
    if first_usable(order, caps, preference, hardware_only) is Some {
        let k = choose|k: int|
            0 <= k < order.len() && usable(caps, #[trigger] order[k], hardware_only).len() > 0;
        lemma_usable_nonempty(caps, order[k], hardware_only);
        let i = choose|i: int|
            0 <= i < caps.len() && offers(#[trigger] caps[i], order[k], hardware_only);
        assert(caps[i].available && (caps[i].hardware || !hardware_only));
    }
}

/// Selection settles on nothing exactly when no capability line is
/// available; whatever it settles on is a codec and encoder that some
/// available line offers; and unless the processor was asked for, that line
/// is a hardware one whenever any available line is.
pub proof fn law_selection_is_backed_by_a_capability(
    codec: ClipCodec,
    preference: EncoderPreference,
    caps: Seq<EncoderCapability>,
)
    ensures
        selected(codec, preference, caps) is None <==> !exists|i: int|
            0 <= i < caps.len() && caps[i].available,
        selected(codec, preference, caps) matches Some(pair) ==> exists|i: int|
            0 <= i < caps.len() && #[trigger] caps[i].codec == pair.0 && caps[i].encoder == pair.1
                && caps[i].available,
        preference != EncoderPreference::Software && (exists|i: int|
            0 <= i < caps.len() && caps[i].available && caps[i].hardware) ==> (selected(
            codec,
            preference,
            caps,
        ) matches Some(pair) && exists|i: int|
            0 <= i < caps.len() && #[trigger] caps[i].codec == pair.0 && caps[i].encoder == pair.1
                && caps[i].available && caps[i].hardware),
{
    assert forall|c: ClipCodec| codec_order(codec).contains(c) && fallback_order(codec).contains(
        c,
    ) by {
        lemma_orders_cover(codec, c);
    }
    lemma_covering_order(codec_order(codec), caps, preference, false);
    lemma_covering_order(codec_order(codec), caps, preference, true);
    lemma_covering_order(fallback_order(codec), caps, preference, false);
    let hw = preference != EncoderPreference::Software && first_usable(
        codec_order(codec),
        caps,
        preference,
        true,
    ) is Some;
    let (order, only_hw) = if preference == EncoderPreference::Software {
        (codec_order(codec), false)
    } else if hw {
        (codec_order(codec), true)
    } else {
        (fallback_order(codec), false)
    };
    assert(selected(codec, preference, caps) == first_usable(order, caps, preference, only_hw));
    lemma_first_usable(order, caps, preference, only_hw);
    match selected(codec, preference, caps) {
        Some(pair) => {
            let u = usable(caps, pair.0, only_hw);
            law_resolve_picks_an_available_encoder(preference, u);
            lemma_usable_contains(caps, pair.0, only_hw, pair.1);
            let i = choose|i: int|
                0 <= i < caps.len() && offers(#[trigger] caps[i], pair.0, only_hw)
                    && caps[i].encoder == pair.1;
            assert(caps[i].codec == pair.0);
        },
        None => {},
    }
}

/// An encoder asked for by name is used with the asked-for codec whenever
/// a line offers exactly that pairing (in hardware, or on the processor
/// when the processor is what was asked for).
pub proof fn law_an_available_choice_is_used_as_asked(
    codec: ClipCodec,
    preference: EncoderPreference,
    caps: Seq<EncoderCapability>,
)
    requires
        preference != EncoderPreference::Auto,
        exists|i: int|
            0 <= i < caps.len() && #[trigger] caps[i].codec == codec && caps[i].encoder
                == preference && caps[i].available && (caps[i].hardware || preference
                == EncoderPreference::Software),
    ensures
        selected(codec, preference, caps) == Some((codec, preference)),
{
    let only_hw = preference != EncoderPreference::Software;
    let i = choose|i: int|
        0 <= i < caps.len() && #[trigger] caps[i].codec == codec && caps[i].encoder == preference
            && caps[i].available && (caps[i].hardware || preference == EncoderPreference::Software);
    assert(offers(caps[i], codec, only_hw));
    lemma_usable_contains(caps, codec, only_hw, preference);
    let u = usable(caps, codec, only_hw);
    law_resolve_picks_an_available_encoder(preference, u);
    lemma_orders_cover(codec, codec);
    assert(codec_order(codec)[0] == codec);
}

} // verus!
