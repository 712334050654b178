//! Stretches cut out of the middle of an export, and how the rest of the
//! clip closes up around them.

use vstd::prelude::*;

use crate::media::{Packet, PacketView};

verus! {

/// Whether `p` lies inside one of the half-open spans `from..to`.
pub open spec fn covers(spans: Seq<(i64, i64)>, p: int) -> bool {
    exists|i: int| 0 <= i < spans.len() && (#[trigger] spans[i]).0 <= p < spans[i].1
}

/// Spans that are non-empty, in order, and neither overlap nor touch.
pub open spec fn separated(spans: Seq<(i64, i64)>) -> bool {
    &&& forall|i: int| 0 <= i < spans.len() ==> (#[trigger] spans[i]).0 < spans[i].1
    &&& forall|i: int, j: int|
        0 <= i < j < spans.len() ==> (#[trigger] spans[i]).1 < (#[trigger] spans[j]).0
}

pub open spec fn max(a: int, b: int) -> int {
    if a >= b {
        a
    } else {
        b
    }
}

pub open spec fn min(a: int, b: int) -> int {
    if a <= b {
        a
    } else {
        b
    }
}

/// Whether `p` lies in one of the `removed` stretches once each is cut to
/// `start..end`.
pub open spec fn removed_covers(removed: Seq<(i64, i64)>, start: i64, end: i64, p: int) -> bool {
    exists|i: int|
        0 <= i < removed.len() && max((#[trigger] removed[i]).0 as int, start as int) <= p < min(
            removed[i].1 as int,
            end as int,
        )
}

/// Where a timestamp lands once the spans before it are cut out: shifted
/// back by the length of every span that ends at or before it, and, inside
/// a span, onto where that span began.
pub open spec fn squeezed(spans: Seq<(i64, i64)>, pts: int) -> int
    decreases spans.len(),
{
    if spans.len() == 0 {
        pts
    } else if pts < spans[0].0 {
        pts
    } else if pts < spans[0].1 {
        spans[0].0 as int
    } else {
        squeezed(spans.drop_first(), pts) - (spans[0].1 - spans[0].0)
    }
}

/// Where a timestamp lands, or `None` when it falls in a span cut out.
pub open spec fn shifted(spans: Seq<(i64, i64)>, pts: int) -> Option<int> {
    if covers(spans, pts) {
        None
    } else {
        Some(squeezed(spans, pts))
    }
}

/// Whether closing up `spans` leaves this packet's decode time in range.
pub open spec fn retime_fits(spans: Seq<(i64, i64)>, packet: Packet) -> bool {
    !covers(spans, packet.pts as int) ==> packet.dts - (packet.pts - squeezed(
        spans,
        packet.pts as int,
    )) >= i64::MIN
}

/// The packets that survive the cut, retimed: each keeps the distance
/// between its decode and presentation times.
pub open spec fn closed(spans: Seq<(i64, i64)>, packets: Seq<Packet>) -> Seq<PacketView>
    decreases packets.len(),
{
    if packets.len() == 0 {
        Seq::empty()
    } else {
        let rest = closed(spans, packets.drop_last());
        let p = packets.last().deep_view();
        if covers(spans, p.pts as int) {
            rest
        } else {
            let q = squeezed(spans, p.pts as int);
            rest.push(PacketView { pts: q as i64, dts: (p.dts - (p.pts - q)) as i64, ..p })
        }
    }
}

/// Closing the gaps moves a packet's decode time with its presentation
/// time, so packets shown when they are decoded (as sound is) stay that way.
pub proof fn law_closing_keeps_decode_and_presentation_together(
    spans: Seq<(i64, i64)>,
    packets: Seq<Packet>,
)
    requires
        forall|i: int| 0 <= i < packets.len() ==> (#[trigger] packets[i]).pts == packets[i].dts,
    ensures
        forall|i: int|
            0 <= i < closed(spans, packets).len() ==> (#[trigger] closed(spans, packets)[i]).pts
                == closed(spans, packets)[i].dts,
    decreases packets.len(),
{
    if packets.len() > 0 {
        let rest = packets.drop_last();
        assert forall|i: int| 0 <= i < rest.len() implies (#[trigger] rest[i]).pts == rest[i].dts by {
            assert(rest[i] == packets[i]);
        }
        law_closing_keeps_decode_and_presentation_together(spans, rest);
        assert(packets.last() == packets[packets.len() - 1]);
        let before = closed(spans, rest);
        let p = packets.last().deep_view();
        if !covers(spans, p.pts as int) {
            let q = squeezed(spans, p.pts as int);
            let moved = PacketView { pts: q as i64, dts: (p.dts - (p.pts - q)) as i64, ..p };
            assert(moved.pts == moved.dts);
            assert(closed(spans, packets) == before.push(moved));
            assert forall|i: int| 0 <= i < before.len() + 1 implies (#[trigger] before.push(
                moved,
            )[i]).pts == before.push(moved)[i].dts by {
                if i < before.len() {
                    assert(before.push(moved)[i] == before[i]);
                }
            }
        }
    }
}

/// A muted stretch of one audio track, in the engine's time base.
#[derive(Debug, Clone, Copy)]
pub struct CutTicks {
    pub stream: u32,
    pub from: i64,
    pub to: i64,
}

/// The muted stretches of track `stream`, moved along with the sound when
/// earlier stretches are cut out; stretches left empty are dropped.
pub open spec fn hushed_spans(spans: Seq<(i64, i64)>, cuts: Seq<CutTicks>, stream: u32) -> Seq<(i64, i64)>
    decreases cuts.len(),
{
    if cuts.len() == 0 {
        Seq::empty()
    } else {
        let rest = hushed_spans(spans, cuts.drop_last(), stream);
        let c = cuts.last();
        let from = squeezed(spans, c.from as int);
        let to = squeezed(spans, c.to as int);
        if c.stream == stream && to > from {
            rest.push((from as i64, to as i64))
        } else {
            rest
        }
    }
}

proof fn lemma_hushed_concat(spans: Seq<(i64, i64)>, a: Seq<CutTicks>, b: Seq<CutTicks>, stream: u32)
    ensures
        hushed_spans(spans, a + b, stream) == hushed_spans(spans, a, stream) + hushed_spans(
            spans,
            b,
            stream,
        ),
    decreases b.len(),
{
    if b.len() == 0 {
        assert(a + b =~= a);
        assert(hushed_spans(spans, a, stream) + hushed_spans(spans, b, stream) =~= hushed_spans(
            spans,
            a,
            stream,
        ));
    } else {
        lemma_hushed_concat(spans, a, b.drop_last(), stream);
        assert((a + b).drop_last() =~= a + b.drop_last());
        assert((a + b).last() == b.last());
        let x = hushed_spans(spans, a, stream);
        let y = hushed_spans(spans, b.drop_last(), stream);
        let c = b.last();
        let from = squeezed(spans, c.from as int);
        let to = squeezed(spans, c.to as int);
        assert(x + y.push((from as i64, to as i64)) =~= (x + y).push((from as i64, to as i64)));
    }
}

/// The muted stretches of a track are found cut by cut, in order: those of
/// two runs of cuts together are those of each, and a single cut mutes,
/// once the gaps close, from where its start lands to where its end lands,
/// when it belongs to the track and something is left of it.
pub proof fn law_muted_stretches_are_found_cut_by_cut(
    spans: Seq<(i64, i64)>,
    a: Seq<CutTicks>,
    b: Seq<CutTicks>,
    c: CutTicks,
    stream: u32,
)
    ensures
        hushed_spans(spans, a + b, stream) == hushed_spans(spans, a, stream) + hushed_spans(
            spans,
            b,
            stream,
        ),
        hushed_spans(spans, seq![c], stream) == (if c.stream == stream && squeezed(spans, c.to as int)
            > squeezed(spans, c.from as int) {
            seq![(squeezed(spans, c.from as int) as i64, squeezed(spans, c.to as int) as i64)]
        } else {
            Seq::<(i64, i64)>::empty()
        }),
{
    lemma_hushed_concat(spans, a, b, stream);
    assert(seq![c].drop_last() =~= Seq::<CutTicks>::empty());
    assert(seq![c].last() == c);
    assert(hushed_spans(spans, Seq::<CutTicks>::empty(), stream) =~= Seq::<(i64, i64)>::empty());
    assert(Seq::<(i64, i64)>::empty().push(
        (squeezed(spans, c.from as int) as i64, squeezed(spans, c.to as int) as i64),
    ) =~= seq![(squeezed(spans, c.from as int) as i64, squeezed(spans, c.to as int) as i64)]);
}

/// A squeezed timestamp never moves later, and never before the first span.
pub proof fn lemma_squeezed_range(spans: Seq<(i64, i64)>, pts: int)
    requires
        separated(spans),
    ensures
        squeezed(spans, pts) <= pts,
        spans.len() == 0 ==> squeezed(spans, pts) == pts,
        spans.len() > 0 ==> squeezed(spans, pts) >= min(pts, spans[0].0 as int),
    decreases spans.len(),
{
    if spans.len() > 0 {
        let rest = spans.drop_first();
        assert(separated(rest)) by {
            assert forall|i: int, j: int| 0 <= i < j < rest.len() implies (#[trigger] rest[i]).1
                < (#[trigger] rest[j]).0 by {
                assert(rest[i] == spans[i + 1] && rest[j] == spans[j + 1]);
            }
        }
        lemma_squeezed_range(rest, pts);
        if rest.len() > 0 {
            assert(spans[0].1 < spans[1].0);
            assert(rest[0] == spans[1]);
        }
    }
}

/// Spans after the first of a separated list are separated too.
proof fn lemma_tail_separated(spans: Seq<(i64, i64)>)
    requires
        separated(spans),
        spans.len() > 0,
    ensures
        separated(spans.drop_first()),
        spans.drop_first().len() > 0 ==> spans[0].1 < spans.drop_first()[0].0,
        forall|x: int| covers(spans.drop_first(), x) ==> covers(spans, x),
{
    let rest = spans.drop_first();
    assert forall|i: int, j: int| 0 <= i < j < rest.len() implies (#[trigger] rest[i]).1 < (
    #[trigger] rest[j]).0 by {
        assert(rest[i] == spans[i + 1] && rest[j] == spans[j + 1]);
    }
    if rest.len() > 0 {
        assert(rest[0] == spans[1]);
    }
    assert forall|x: int| covers(rest, x) implies covers(spans, x) by {
        let i = choose|i: int| 0 <= i < rest.len() && (#[trigger] rest[i]).0 <= x < rest[i].1;
        assert(spans[i + 1] == rest[i]);
    }
}

/// Cutting stretches out never reorders time: a later timestamp never lands
/// before an earlier one.
pub proof fn law_squeeze_is_monotone(spans: Seq<(i64, i64)>, p: int, q: int)
    requires
        separated(spans),
        p <= q,
    ensures
        squeezed(spans, p) <= squeezed(spans, q),
    decreases spans.len(),
{
    if spans.len() > 0 {
        let rest = spans.drop_first();
        lemma_tail_separated(spans);
        lemma_squeezed_range(rest, q);
        lemma_squeezed_range(rest, p);
        law_squeeze_is_monotone(rest, p, q);
    }
}

/// Two kept timestamps keep their order strictly, so kept frames never
/// collide.
pub proof fn law_squeeze_keeps_kept_times_apart(spans: Seq<(i64, i64)>, p: int, q: int)
    requires
        separated(spans),
        p < q,
        !covers(spans, p),
        !covers(spans, q),
    ensures
        squeezed(spans, p) < squeezed(spans, q),
    decreases spans.len(),
{
    if spans.len() > 0 {
        let rest = spans.drop_first();
        lemma_tail_separated(spans);
        lemma_squeezed_range(rest, q);
        lemma_squeezed_range(rest, p);
        if !(spans[0].0 <= p < spans[0].1) && !(spans[0].0 <= q < spans[0].1) {
            if p >= spans[0].1 {
                law_squeeze_keeps_kept_times_apart(rest, p, q);
            }
        } else {
            assert(spans[0].0 <= p < spans[0].1 ==> covers(spans, p));
            assert(spans[0].0 <= q < spans[0].1 ==> covers(spans, q));
        }
    }
}

/// Where nothing is cut between two timestamps, they stay exactly as far
/// apart: the join leaves neither a hole nor an overlap.
pub proof fn law_squeeze_closes_the_gap(spans: Seq<(i64, i64)>, p: int, q: int)
    requires
        separated(spans),
        p <= q,
        forall|x: int| p <= x < q ==> !covers(spans, x),
    ensures
        squeezed(spans, q) - squeezed(spans, p) == q - p,
    decreases spans.len(),
{
    if spans.len() > 0 && p < q {
        let rest = spans.drop_first();
        lemma_tail_separated(spans);
        let (f, t) = spans[0];
        if q < f {
        } else if p < f {
            assert(spans[0].0 <= f < spans[0].1);
            assert(covers(spans, f as int));
        } else if p < t {
            assert(spans[0].0 <= p < spans[0].1);
            assert(covers(spans, p));
        } else {
            assert forall|x: int| p <= x < q implies !covers(rest, x) by {
                if covers(rest, x) {
                    assert(covers(spans, x));
                }
            }
            law_squeeze_closes_the_gap(rest, p, q);
        }
    }
}

/// The stretches removed from an export, merged and in order.
pub struct Gaps {
    spans: Vec<(i64, i64)>,
}

impl View for Gaps {
    type V = Seq<(i64, i64)>;

    closed spec fn view(&self) -> Seq<(i64, i64)> {
        self.spans@
    }
}

/// Spans with the same elements cover the same points.
proof fn lemma_same_elements_same_cover(a: Seq<(i64, i64)>, b: Seq<(i64, i64)>, p: int)
    requires
        forall|x: (i64, i64)| a.contains(x) <==> b.contains(x),
    ensures
        covers(a, p) <==> covers(b, p),
{
    if covers(a, p) {
        let i = choose|i: int| 0 <= i < a.len() && (#[trigger] a[i]).0 <= p < a[i].1;
        assert(a.contains(a[i]));
        let j = choose|j: int| 0 <= j < b.len() && b[j] == a[i];
        assert(b[j].0 <= p < b[j].1);
    }
    if covers(b, p) {
        let i = choose|i: int| 0 <= i < b.len() && (#[trigger] b[i]).0 <= p < b[i].1;
        assert(b.contains(b[i]));
        let j = choose|j: int| 0 <= j < a.len() && a[j] == b[i];
        assert(a[j].0 <= p < a[j].1);
    }
}

/// The stretches cut to `start..end`, with empty ones left out.
fn clamp_spans(removed: &[(i64, i64)], start: i64, end: i64) -> (spans: Vec<(i64, i64)>)
    ensures
        forall|i: int| 0 <= i < spans@.len() ==> (#[trigger] spans@[i]).0 < spans@[i].1,
        forall|p: int| covers(spans@, p) <==> removed_covers(removed@, start, end, p),
{
    let mut spans: Vec<(i64, i64)> = Vec::new();
    let mut k: usize = 0;
    while k < removed.len()
        invariant
            0 <= k <= removed@.len(),
            forall|i: int| 0 <= i < spans@.len() ==> (#[trigger] spans@[i]).0 < spans@[i].1,
            forall|p: int| covers(spans@, p) <==> removed_covers(removed@.take(k as int), start, end, p),
        decreases removed@.len() - k,
    {
        let (a, b) = removed[k];
        let from = if a >= start {
            a
        } else {
            start
        };
        let to = if b <= end {
            b
        } else {
            end
        };
        let ghost before = spans@;
        let ghost taken = removed@.take(k as int);
        let ghost next = removed@.take(k + 1);
        if to > from {
            spans.push((from, to));
        }
        assert forall|p: int| covers(spans@, p) <==> removed_covers(next, start, end, p) by {
            assert(next[k as int] == removed@[k as int]);
            if covers(spans@, p) {
                let i = choose|i: int| 0 <= i < spans@.len() && (#[trigger] spans@[i]).0 <= p < spans@[i].1;
                if i < before.len() {
                    assert(before[i] == spans@[i]);
                    assert(covers(before, p));
                    let j = choose|j: int|
                        0 <= j < taken.len() && max((#[trigger] taken[j]).0 as int, start as int) <= p
                            < min(taken[j].1 as int, end as int);
                    assert(next[j] == taken[j]);
                } else {
                    assert(max(next[k as int].0 as int, start as int) <= p < min(next[k as int].1 as int, end as int));
                }
            }
            if removed_covers(next, start, end, p) {
                let j = choose|j: int|
                    0 <= j < next.len() && max((#[trigger] next[j]).0 as int, start as int) <= p < min(
                        next[j].1 as int,
                        end as int,
                    );
                if j < k {
                    assert(taken[j] == next[j]);
                    assert(removed_covers(taken, start, end, p));
                    assert(covers(before, p));
                    let i = choose|i: int| 0 <= i < before.len() && (#[trigger] before[i]).0 <= p < before[i].1;
                    assert(spans@[i] == before[i]);
                } else {
                    assert(spans@[spans@.len() - 1] == (from, to));
                }
            }
        }
        k = k + 1;
    }
    assert(removed@.take(removed@.len() as int) =~= removed@);
    spans
}

/// The same spans ordered by where they begin.
fn sort_spans(spans: &Vec<(i64, i64)>) -> (sorted: Vec<(i64, i64)>)
    requires
        forall|i: int| 0 <= i < spans@.len() ==> (#[trigger] spans@[i]).0 < spans@[i].1,
    ensures
        forall|i: int| 0 <= i < sorted@.len() ==> (#[trigger] sorted@[i]).0 < sorted@[i].1,
        forall|i: int, j: int|
            0 <= i < j < sorted@.len() ==> (#[trigger] sorted@[i]).0 <= (#[trigger] sorted@[j]).0,
        forall|x: (i64, i64)| sorted@.contains(x) <==> spans@.contains(x),
{
    let mut sorted: Vec<(i64, i64)> = Vec::new();
    let mut k: usize = 0;
    while k < spans.len()
        invariant
            0 <= k <= spans@.len(),
            forall|i: int| 0 <= i < spans@.len() ==> (#[trigger] spans@[i]).0 < spans@[i].1,
            forall|i: int| 0 <= i < sorted@.len() ==> (#[trigger] sorted@[i]).0 < sorted@[i].1,
            forall|i: int, j: int|
                0 <= i < j < sorted@.len() ==> (#[trigger] sorted@[i]).0 <= (#[trigger] sorted@[j]).0,
            forall|x: (i64, i64)| sorted@.contains(x) <==> spans@.take(k as int).contains(x),
        decreases spans@.len() - k,
    {
        let x = spans[k];
        let mut j: usize = 0;
        while j < sorted.len() && sorted[j].0 <= x.0
            invariant
                0 <= j <= sorted@.len(),
                forall|i: int| 0 <= i < j ==> (#[trigger] sorted@[i]).0 <= x.0,
            decreases sorted@.len() - j,
        {
            j = j + 1;
        }
        let ghost before = sorted@;
        sorted.insert(j, x);
        assert(sorted@ == before.insert(j as int, x));
        assert forall|i: int| 0 <= i < sorted@.len() implies (#[trigger] sorted@[i]).0 < sorted@[i].1 by {
            if i < j {
                assert(sorted@[i] == before[i]);
            } else if i > j {
                assert(sorted@[i] == before[i - 1]);
            } else {
                assert(spans@[k as int] == x);
            }
        }
        assert forall|a: int, b: int|
            0 <= a < b < sorted@.len() implies (#[trigger] sorted@[a]).0 <= (#[trigger] sorted@[b]).0 by {
            if b < j {
                assert(sorted@[a] == before[a] && sorted@[b] == before[b]);
            } else if b == j {
                assert(sorted@[a] == before[a]);
            } else if a > j {
                assert(sorted@[a] == before[a - 1] && sorted@[b] == before[b - 1]);
            } else if a == j {
                assert(sorted@[b] == before[b - 1]);
                assert(!(before[j as int].0 <= x.0));
                if b - 1 > j {
                    assert(before[j as int].0 <= before[b - 1].0);
                }
            } else {
                assert(sorted@[a] == before[a] && sorted@[b] == before[b - 1]);
            }
        }
        assert forall|y: (i64, i64)| sorted@.contains(y) <==> spans@.take(k + 1).contains(y) by {
            let t = spans@.take(k as int);
            let t1 = spans@.take(k + 1);
            assert(t1 =~= t.push(x));
            if sorted@.contains(y) {
                let i = choose|i: int| 0 <= i < sorted@.len() && sorted@[i] == y;
                if i < j {
                    assert(before[i] == y);
                    assert(before.contains(y));
                    let m = choose|m: int| 0 <= m < t.len() && t[m] == y;
                    assert(t1[m] == y);
                } else if i > j {
                    assert(before[i - 1] == y);
                    assert(before.contains(y));
                    let m = choose|m: int| 0 <= m < t.len() && t[m] == y;
                    assert(t1[m] == y);
                } else {
                    assert(t1[k as int] == y);
                }
            }
            if t1.contains(y) {
                let m = choose|m: int| 0 <= m < t1.len() && t1[m] == y;
                if m < k {
                    assert(t[m] == y);
                    assert(t.contains(y));
                    assert(before.contains(y));
                    let i = choose|i: int| 0 <= i < before.len() && before[i] == y;
                    if i < j {
                        assert(sorted@[i] == y);
                    } else {
                        assert(sorted@[i + 1] == y);
                    }
                } else {
                    assert(sorted@[j as int] == y);
                }
            }
        }
        k = k + 1;
    }
    assert(spans@.take(spans@.len() as int) =~= spans@);
    sorted
}

/// Joins spans that overlap or touch; `sorted` is ordered by start.
fn merge_spans(sorted: &Vec<(i64, i64)>) -> (merged: Vec<(i64, i64)>)
    requires
        forall|i: int| 0 <= i < sorted@.len() ==> (#[trigger] sorted@[i]).0 < sorted@[i].1,
        forall|i: int, j: int|
            0 <= i < j < sorted@.len() ==> (#[trigger] sorted@[i]).0 <= (#[trigger] sorted@[j]).0,
    ensures
        separated(merged@),
        forall|p: int| covers(merged@, p) <==> covers(sorted@, p),
{
    let mut merged: Vec<(i64, i64)> = Vec::new();
    let mut k: usize = 0;
    while k < sorted.len()
        invariant
            0 <= k <= sorted@.len(),
            forall|i: int| 0 <= i < sorted@.len() ==> (#[trigger] sorted@[i]).0 < sorted@[i].1,
            forall|i: int, j: int|
                0 <= i < j < sorted@.len() ==> (#[trigger] sorted@[i]).0 <= (#[trigger] sorted@[j]).0,
            separated(merged@),
            merged@.len() > 0 ==> forall|m: int|
                k <= m < sorted@.len() ==> merged@.last().0 <= (#[trigger] sorted@[m]).0,
            forall|p: int| covers(merged@, p) <==> covers(sorted@.take(k as int), p),
        decreases sorted@.len() - k,
    {
        let (from, to) = sorted[k];
        let ghost before = merged@;
        let ghost t = sorted@.take(k as int);
        let ghost t1 = sorted@.take(k + 1);
        assert(t1 =~= t.push((from, to)));
        if merged.len() > 0 && from <= merged[merged.len() - 1].1 {
            let last = merged.len() - 1;
            let (a, b) = merged[last];
            assert(a <= from);
            if to > b {
                merged.set(last, (a, to));
            }
            assert forall|p: int| covers(merged@, p) <==> covers(t1, p) by {
                if covers(merged@, p) {
                    let i = choose|i: int| 0 <= i < merged@.len() && (#[trigger] merged@[i]).0 <= p < merged@[i].1;
                    if i < last {
                        assert(before[i] == merged@[i]);
                    } else if p < b {
                        assert(before[i].0 <= p < before[i].1);
                    } else {
                        assert(t1[k as int].0 <= p < t1[k as int].1);
                    }
                    if i < last || p < b {
                        assert(covers(before, p));
                        let m = choose|m: int| 0 <= m < t.len() && (#[trigger] t[m]).0 <= p < t[m].1;
                        assert(t1[m] == t[m]);
                    }
                }
                if covers(t1, p) {
                    let m = choose|m: int| 0 <= m < t1.len() && (#[trigger] t1[m]).0 <= p < t1[m].1;
                    if m < k {
                        assert(t[m] == t1[m]);
                        assert(covers(t, p));
                        assert(covers(before, p));
                        let i = choose|i: int| 0 <= i < before.len() && (#[trigger] before[i]).0 <= p < before[i].1;
                        if i < last {
                            assert(merged@[i] == before[i]);
                        } else {
                            assert(merged@[i].0 <= p < merged@[i].1);
                        }
                    } else {
                        assert(merged@[last as int].0 <= p < merged@[last as int].1);
                    }
                }
            }
        } else {
            merged.push((from, to));
            assert forall|i: int, j: int|
                0 <= i < j < merged@.len() implies (#[trigger] merged@[i]).1 < (#[trigger] merged@[j]).0 by {
                if j < before.len() {
                    assert(merged@[i] == before[i] && merged@[j] == before[j]);
                } else if i < before.len() - 1 {
                    assert(merged@[i] == before[i]);
                    assert(before[i].1 < before[before.len() - 1].0);
                    assert(before.last() == before[before.len() - 1]);
                } else {
                    assert(merged@[i] == before[i]);
                    assert(before.last() == before[before.len() - 1]);
                }
            }
            assert forall|p: int| covers(merged@, p) <==> covers(t1, p) by {
                if covers(merged@, p) {
                    let i = choose|i: int| 0 <= i < merged@.len() && (#[trigger] merged@[i]).0 <= p < merged@[i].1;
                    if i < before.len() {
                        assert(before[i] == merged@[i]);
                        assert(covers(before, p));
                        let m = choose|m: int| 0 <= m < t.len() && (#[trigger] t[m]).0 <= p < t[m].1;
                        assert(t1[m] == t[m]);
                    } else {
                        assert(t1[k as int].0 <= p < t1[k as int].1);
                    }
                }
                if covers(t1, p) {
                    let m = choose|m: int| 0 <= m < t1.len() && (#[trigger] t1[m]).0 <= p < t1[m].1;
                    if m < k {
                        assert(t[m] == t1[m]);
                        assert(covers(t, p));
                        assert(covers(before, p));
                        let i = choose|i: int| 0 <= i < before.len() && (#[trigger] before[i]).0 <= p < before[i].1;
                        assert(merged@[i] == before[i]);
                    } else {
                        assert(merged@[merged@.len() - 1].0 <= p < merged@[merged@.len() - 1].1);
                    }
                }
            }
        }
        k = k + 1;
    }
    assert(sorted@.take(sorted@.len() as int) =~= sorted@);
    merged
}

impl Gaps {
    /// The stretches `removed` (in the engine's time base) cut to
    /// `start..end`, with empty ones dropped and overlapping or touching ones
    /// merged, in order.
    pub fn new(removed: &[(i64, i64)], start: i64, end: i64) -> (gaps: Gaps)
        ensures
            separated(gaps@),
            forall|p: int| covers(gaps@, p) <==> removed_covers(removed@, start, end, p),
    {
        let spans = clamp_spans(removed, start, end);
        let sorted = sort_spans(&spans);
        let merged = merge_spans(&sorted);
        assert forall|p: int| covers(merged@, p) <==> removed_covers(removed@, start, end, p) by {
            lemma_same_elements_same_cover(sorted@, spans@, p);
        }
        Gaps { spans: merged }
    }

    /// Where `pts` lands once the stretches before it are cut out.
    pub fn squeeze(&self, pts: i64) -> (r: i64)
        requires
            separated(self@),
        ensures
            r == squeezed(self@, pts as int),
    {
        let spans = &self.spans;
        let ghost s = spans@;
        let mut removed: i128 = 0;
        let mut i: usize = 0;
        assert(s.skip(0) =~= s);
        while i < spans.len()
            invariant
                s == spans@,
                s == self@,
                separated(s),
                0 <= i <= s.len(),
                forall|j: int| 0 <= j < i ==> (#[trigger] s[j]).1 <= pts,
                squeezed(s, pts as int) == squeezed(s.skip(i as int), pts as int) - removed,
                0 <= removed,
                i == 0 ==> removed == 0,
                i > 0 ==> removed <= s[i - 1].1 - s[0].0,
            decreases s.len() - i,
        {
            let (from, to) = spans[i];
            assert(s.skip(i as int)[0] == (from, to));
            assert(s.skip(i as int).drop_first() =~= s.skip(i + 1));
            if i > 0 {
                assert(s[i - 1].1 < s[i as int].0);
            }
            if i > 0 {
                assert(s[i - 1].1 <= pts);
                assert(s[0].0 <= s[i - 1].0) by {
                    if i - 1 > 0 {
                        assert(s[0].1 < s[i - 1].0);
                    }
                }
            }
            if pts < from {
                assert(squeezed(s.skip(i as int), pts as int) == pts);
                assert(pts - removed >= i64::MIN && pts - removed <= i64::MAX);
                return (pts as i128 - removed) as i64;
            }
            if pts < to {
                assert(squeezed(s.skip(i as int), pts as int) == from);
                assert(from - removed >= i64::MIN && from - removed <= i64::MAX);
                return (from as i128 - removed) as i64;
            }
            removed = removed + (to as i128 - from as i128);
            i = i + 1;
        }
        proof {
            if s.len() > 0 {
                assert(s[s.len() - 1].1 <= pts);
                assert(s[0].0 <= s[s.len() - 1].0) by {
                    if s.len() - 1 > 0 {
                        assert(s[0].1 < s[s.len() - 1].0);
                    }
                }
            }
            assert(s.skip(s.len() as int).len() == 0);
        }
        (pts as i128 - removed) as i64
    }

    /// Where `pts` lands, or `None` when it falls in a stretch cut out.
    pub fn shift(&self, pts: i64) -> (r: Option<i64>)
        requires
            separated(self@),
        ensures
            r matches Some(q) ==> shifted(self@, pts as int) == Some(q as int),
            r is None ==> shifted(self@, pts as int) is None,
    {
        let mut i: usize = 0;
        while i < self.spans.len()
            invariant
                0 <= i <= self@.len(),
                self@ == self.spans@,
                forall|j: int| 0 <= j < i ==> !((#[trigger] self@[j]).0 <= pts < self@[j].1),
            decreases self@.len() - i,
        {
            let (from, to) = self.spans[i];
            if from <= pts && pts < to {
                assert(self@[i as int].0 <= pts < self@[i as int].1);
                return None;
            }
            i = i + 1;
        }
        Some(self.squeeze(pts))
    }

    /// The packets outside the stretches cut out, moved up to close the
    /// gaps, in their order.
    pub fn close(&self, packets: &[Packet]) -> (out: Vec<Packet>)
        requires
            separated(self@),
            forall|i: int| 0 <= i < packets@.len() ==> retime_fits(self@, #[trigger] packets@[i]),
        ensures
            out.deep_view() == closed(self@, packets@),
    {
        let mut out: Vec<Packet> = Vec::new();
        let mut i: usize = 0;
        while i < packets.len()
            invariant
                0 <= i <= packets@.len(),
                separated(self@),
                forall|i: int| 0 <= i < packets@.len() ==> retime_fits(self@, #[trigger] packets@[i]),
                out.deep_view() == closed(self@, packets@.take(i as int)),
            decreases packets@.len() - i,
        {
            let packet = &packets[i];
            assert(packets@.take(i + 1).drop_last() =~= packets@.take(i as int));
            assert(packets@.take(i + 1).last() == packets@[i as int]);
            assert(retime_fits(self@, packets@[i as int]));
            match self.shift(packet.pts) {
                Some(pts) => {
                    proof {
                        lemma_squeezed_range(self@, packet.pts as int);
                    }
                    let moved = packet.retimed(
                        pts,
                        (packet.dts as i128 - (packet.pts as i128 - pts as i128)) as i64,
                    );
                    let ghost before = out.deep_view();
                    out.push(moved);
                    assert(out.deep_view() =~= before.push(moved.deep_view()));
                },
                None => {},
            }
            i = i + 1;
        }
        assert(packets@.take(packets@.len() as int) =~= packets@);
        out
    }

    /// The merged stretches, in order.
    pub fn spans(&self) -> (s: &Vec<(i64, i64)>)
        ensures
            s@ == self@,
    {
        &self.spans
    }
}

/// The muted stretches of track `stream`, in the time of the export after
/// the stretches in `gaps` are cut out; stretches that come out empty are
/// dropped.
pub fn hushed(muted: &[CutTicks], stream: u32, gaps: &Gaps) -> (out: Vec<(i64, i64)>)
    requires
        separated(gaps@),
    ensures
        out@ == hushed_spans(gaps@, muted@, stream),
{
    let mut out: Vec<(i64, i64)> = Vec::new();
    let mut i: usize = 0;
    while i < muted.len()
        invariant
            0 <= i <= muted@.len(),
            separated(gaps@),
            out@ == hushed_spans(gaps@, muted@.take(i as int), stream),
        decreases muted@.len() - i,
    {
        let cut = muted[i];
        assert(muted@.take(i + 1).drop_last() =~= muted@.take(i as int));
        assert(muted@.take(i + 1).last() == muted@[i as int]);
        if cut.stream == stream {
            let from = gaps.squeeze(cut.from);
            let to = gaps.squeeze(cut.to);
            if to > from {
                out.push((from, to));
            }
        }
        i = i + 1;
    }
    assert(muted@.take(muted@.len() as int) =~= muted@);
    out
}

} // verus!
