//! What holds of time on the way through: epochs of a reconnecting input, the
//! grid of caption frames, and the data that each frame gets. Times of the
//! timeline are 90 kHz ticks.
use vstd::prelude::*;

use crate::captioner::{capped, lookup, rounded, total_chars, Stage};
use crate::captions::Piece;
use crate::encoder::Frames;
use crate::epochs::Timeline;

verus! {

/// A timestamp that lies more than a second before or more than ten seconds
/// behind the last one of its stream opens an epoch, and no other timestamp of a
/// stream that was seen does.
pub proof fn law_jumps_open_an_epoch(t: Timeline, stream: int, dts: i64, wall: i64)
    requires
        t.delta is Some,
        0 <= stream < t.last_in.len(),
        t.last_in[stream] is Some,
        t.epochs < u64::MAX,
    ensures
        ({
            let prev = t.last_in[stream]->0;
            let after = t.ready(stream, dts, wall).noted(stream, dts, wall);
            let jump = dts < prev - 90_000 || dts > prev + 900_000;
            &&& after.epochs == t.epochs + (if jump {
                1int
            } else {
                0
            })
            &&& after.last_in[stream] == Some(dts)
            &&& jump ==> forall|i: int|
                0 <= i < t.last_in.len() && i != stream ==> #[trigger] after.last_in[i] is None
            &&& !jump ==> t.delta_of(stream, dts, wall) == t.delta->0 && (forall|i: int|
                0 <= i < t.last_in.len() && i != stream ==> #[trigger] after.last_in[i]
                    == t.last_in[i])
        }),
{
}

/// The very first packet keeps its timestamp, whatever it is.
pub proof fn law_first_packets_are_unchanged(t: Timeline, stream: int, dts: i64, wall: i64)
    requires
        t.delta is None,
        t.out_end is None,
    ensures
        t.delta_of(stream, dts, wall) == 0,
{
}

/// Output keeps pace with the wall clock across a gap: where all packets of the
/// old epoch came on time, `lag` ticks of wall time behind their timestamps, and
/// everything up to the last one was sent, an epoch that opens `gap` ticks after
/// that one was due starts half a second and the gap behind it.
pub proof fn law_gaps_keep_their_length(
    t: Timeline,
    stream: int,
    dts: i64,
    wall: i64,
    lag: int,
    gap: int,
)
    requires
        t.delta is None,
        t.out_end is Some,
        t.anchor == Some(lag),
        t.anchor_prev is None || t.anchor_prev->0 >= lag,
        wall == t.in_max + lag + gap,
    ensures
        gap >= 0 ==> dts + t.delta_of(stream, dts, wall) == t.out_end->0 + 45_000 + gap,
        gap < 0 ==> dts + t.delta_of(stream, dts, wall) == t.out_end->0 + 45_000,
{
}

/// The anchor follows the packets that come earliest: every packet of the last
/// two seconds of input counts, and none from before the last window.
pub proof fn law_the_anchor_is_the_least_lag(t: Timeline, stream: int, dts: i64, wall: i64)
    requires
        t.delta is Some,
        !t.jumps(stream, dts),
        t.anchor is Some,
    ensures
        ({
            let after = t.ready(stream, dts, wall).noted(stream, dts, wall);
            let lag = wall - dts;
            let ahead = dts - t.window_start;
            &&& after.anchor is Some
            &&& ahead <= 180_000 ==> {
                &&& after.anchor->0 <= lag && after.anchor->0 <= t.anchor->0
                &&& after.anchor->0 == lag || after.anchor == t.anchor
                &&& after.anchor_prev == t.anchor_prev && after.window_start == t.window_start
            }
            &&& ahead > 180_000 ==> {
                &&& after.anchor->0 == lag
                &&& after.anchor_prev == t.anchor && after.window_start == dts
            }
            &&& after.in_max >= dts && after.in_max >= t.in_max
            &&& after.in_max == dts || after.in_max == t.in_max
        }),
{
}

/// A quotient is rounded to the nearest integer, and halves away from zero.
pub proof fn law_rounding_is_nearest(a: int, b: int)
    requires
        b > 0,
    ensures
        -b <= 2 * (rounded(a, b) * b - a) <= b,
        a >= 0 && 2 * (rounded(a, b) * b - a) == b ==> rounded(a, b) * b > a,
        rounded(-a, b) == -rounded(a, b),
        a >= 0 ==> 2 * (rounded(a, b) * b - a) > -b,
{
    let m = if a >= 0 {
        a
    } else {
        -a
    };
    let q = (2 * m + b) / (2 * b);
    assert(q * (2 * b) <= 2 * m + b < q * (2 * b) + 2 * b) by (nonlinear_arith)
        requires
            q == (2 * m + b) / (2 * b),
            b > 0,
    ;
    assert(q * (2 * b) == 2 * (q * b)) by (nonlinear_arith);
    assert((-q) * b == -(q * b)) by (nonlinear_arith);
    if a == 0 {
        assert(b / (2 * b) == 0) by (nonlinear_arith)
            requires
                b > 0,
        ;
        assert(rounded(0, b) == 0);
    }
}

/// A frame that comes a whole number of frames after the last is numbered that
/// many further on, unless it is 90 frames or more from the frame that is due.
/// Such a frame is numbered as the next one, and nothing kept before it is served.
pub proof fn law_frames_are_numbered_by_their_times(s: Stage, pts: i64, n: int)
    requires
        s.wf(),
        s.last is Some,
        (pts - (s.last->0).0) * s.rate.0 == n * (1_000_000_000 * s.rate.1),
    ensures
        ({
            let idx = (s.last->0).1 + n;
            let (got, after) = s.align(pts);
            &&& s.next_idx - 90 <= idx < s.next_idx + 90 ==> got == idx && after.pending
                == s.pending
            &&& !(s.next_idx - 90 <= idx < s.next_idx + 90) ==> got == s.next_idx
                && after.pending.len() == 0
            &&& after.last matches Some(l) && l.0 == pts
            &&& after.next_idx == s.next_idx
        }),
{
    let b = 1_000_000_000 * s.rate.1;
    let a = (pts - (s.last->0).0) * s.rate.0;
    assert(b > 0);
    law_rounding_is_nearest(a, b);
    let r = rounded(a, b);
    assert(r == n) by (nonlinear_arith)
        requires
            a == n * b,
            -b <= 2 * (r * b - a) <= b,
            b > 0,
    ;
    let grid = 1_000_000_000 * s.rate.1;
    assert(s.index_of(pts) == (s.last->0).1 + n);
}

/// Text is shown for as many frames as its time asks, and for one at least; text
/// that rolls up takes a single frame.
pub proof fn law_text_stays_its_time(s: Stage, n: int)
    requires
        s.wf(),
        n >= 1,
        s.hold_ms * s.rate.0 == n * (1000 * s.rate.1),
    ensures
        s.roll_up ==> s.hold_frames() == 1,
        !s.roll_up ==> s.hold_frames() == n,
{
    let b = 1000 * s.rate.1;
    let a = s.hold_ms * s.rate.0;
    law_rounding_is_nearest(a, b);
    let r = rounded(a, b);
    assert(r == n) by (nonlinear_arith)
        requires
            a == n * b,
            -b <= 2 * (r * b - a) <= b,
            b > 0,
    ;
}

/// Text is fed when it is due and the encoder is at most six frames ahead, in the
/// order in which it was queued, one piece for a frame.
pub proof fn law_text_is_fed_when_due(s: Stage, lane: int, lead: u64, now_ms: u64)
    requires
        s.wf(),
        0 <= lane < s.queues.len(),
    ensures
        ({
            let (piece, left) = s.feed_lane(lane, lead, now_ms);
            let queue = capped(s.queues[lane], lead, s.rate);
            &&& piece is Some <==> lead <= 6 && queue.len() > 0 && queue[0].due_ms <= now_ms
            &&& piece matches Some(p) ==> seq![p] + left == queue
            &&& piece is None ==> left == queue
        }),
{
    let queue = capped(s.queues[lane], lead, s.rate);
    if queue.len() > 0 {
        assert(seq![queue[0]] + queue.drop_first() =~= queue);
    }
}

/// Text that would take longer than six seconds to show at 40 characters a
/// second, the encoder's lead counted in, is dropped, oldest first and no more
/// than it takes.
pub proof fn law_old_text_gives_way(queue: Seq<Piece>, lead: u64, rate: (i32, i32))
    requires
        rate.0 > 0,
        rate.1 > 0,
    ensures
        ({
            let left = capped(queue, lead, rate);
            let n = queue.len() - left.len();
            &&& 0 <= n <= queue.len()
            &&& left == queue.skip(n)
            &&& left.len() > 0 ==> 40 * lead * rate.1 + total_chars(left) * rate.0 <= 240
                * rate.0
            &&& n > 0 ==> 40 * lead * rate.1 + total_chars(queue.skip(n - 1)) * rate.0 > 240
                * rate.0
        }),
    decreases queue.len(),
{
    let left = capped(queue, lead, rate);
    if left.len() == queue.len() && (queue.len() == 0 || crate::captioner::within_cap(
        queue,
        lead,
        rate,
    )) {
        assert(queue.skip(0) =~= queue);
    } else {
        let rest = queue.drop_first();
        law_old_text_gives_way(rest, lead, rate);
        let n = rest.len() - left.len();
        assert(queue.skip(n + 1) =~= rest.skip(n));
        if n > 0 {
            assert(queue.skip(n) =~= rest.skip(n - 1));
        } else {
            assert(queue.skip(0) =~= queue);
        }
    }
}

/// An encoder that runs at the frame rate is used. After a failure none is built
/// for five seconds, and after that, or for another frame rate, a new one is built
/// and the grid starts over at frame 0.
pub proof fn law_encoders_are_rebuilt_after_a_while(s: Stage, fps: (i32, i32), t: u64, now: u64)
    requires
        t + 5000 <= u64::MAX,
    ensures
        s.enc == Some(fps) ==> s.ensure(fps, now).0 == crate::captioner::EncoderStep::Ready,
        ({
            let broken = s.failed(t);
            &&& now < t + 5000 ==> broken.ensure(fps, now).0
                == crate::captioner::EncoderStep::Wait
            &&& now >= t + 5000 ==> broken.ensure(fps, now).0
                == crate::captioner::EncoderStep::Build
        }),
        ({
            let fresh = s.built(fps);
            &&& fresh.ensure(fps, now) == (crate::captioner::EncoderStep::Ready, fresh)
            &&& fresh.next_idx == 0 && fresh.pending.len() == 0 && fresh.last is None
            &&& fresh.rate == fps
            &&& fresh.queues == s.queues
        }),
        s.enc is Some && s.enc != Some(fps) && s.retry_at is None ==> s.ensure(fps, now).0
            == crate::captioner::EncoderStep::Build,
{
}

/// Data of earlier frames is handed out to a frame in the order in which it came,
/// one entry for a frame; data of a later frame waits for it. A frame that waited
/// in vain is counted, and one that did not ends the count.
pub proof fn law_data_waits_for_its_frame(f: Frames, i: u64, timed_out: bool)
    requires
        f.wf(),
        f.timeouts_in_row < u64::MAX,
    ensures
        ({
            let (data, after) = f.frame(i, timed_out);
            let due = f.queue.len() > 0 && f.queue[0].0 <= i;
            &&& due ==> data == f.queue[0].1 && seq![f.queue[0]] + after.queue == f.queue
            &&& !due ==> data.len() == 0 && after.queue == f.queue
            &&& after.timeouts_in_row == (if timed_out {
                f.timeouts_in_row + 1
            } else {
                0
            })
            &&& forall|k: int| 0 <= k < after.fed.len() ==> !#[trigger] after.fed[k]
            &&& after.fed.len() == f.fed.len()
            &&& after.out_hi == f.out_hi && after.track_hi == f.track_hi
        }),
{
    if f.queue.len() > 0 {
        assert(seq![f.queue[0]] + f.queue.drop_first() =~= f.queue);
    }
}

/// At most 256 entries wait, the newest. A frame's output has come once output
/// for it or a later frame has.
pub proof fn law_newest_data_is_kept(f: Frames, idx: u64, data: Seq<u8>, i: u64)
    requires
        f.wf(),
    ensures
        ({
            let after = f.take(idx, data);
            let n = f.queue.len();
            &&& after.queue.len() <= 256
            &&& after.queue.last() == (idx, data)
            &&& n < 256 ==> after.queue.drop_last() == f.queue
            &&& n == 256 ==> after.queue.drop_last() == f.queue.skip(1)
            &&& after.waits_for(i) <==> f.waits_for(i) && idx < i
        }),
{
    let after = f.take(idx, data);
    if f.queue.len() < 256 {
        assert(after.queue.drop_last() =~= f.queue);
    } else {
        assert(after.queue.drop_last() =~= f.queue.skip(1));
    }
}

/// A track's lead is how many frames its encoder has brought beyond a frame, and
/// a track that has brought the frame, or was fed text for it, gets no gap.
pub proof fn law_leads_count_frames_ahead(f: Frames, track: int, idx: u64, i: u64)
    requires
        f.wf(),
        0 <= track < f.track_hi.len(),
        idx < u64::MAX,
    ensures
        ({
            let after = f.seen(track, idx);
            &&& after.lead(track, idx) >= 1
            &&& f.track_hi[track] <= idx && i <= idx ==> after.lead(track, i) == idx + 1 - i
            &&& f.track_hi[track] > idx ==> after.lead(track, i) == f.lead(track, i)
            &&& i <= idx ==> !after.needs_gap(track, i)
            &&& f.fed[track] ==> !f.needs_gap(track, i)
            &&& !f.fed[track] && f.lead(track, i) == 0 ==> f.needs_gap(track, i)
            &&& forall|k: int|
                0 <= k < f.track_hi.len() && k != track ==> #[trigger] after.track_hi[k]
                    == f.track_hi[k]
        }),
{
}

/// When a frame takes its data, data of other frames stays unless it is more than
/// 32 frames old; a frame without data takes nothing away.
pub proof fn law_data_of_other_frames_stays(s: Stage, idx: u64, k: int)
    requires
        0 <= k < s.pending.len(),
    ensures
        ({
            let (data, after) = s.take(idx);
            let e = s.pending[k];
            let old = e.0 + 32 < idx;
            &&& after.pending.contains(e) || e.0 == idx || old
            &&& lookup(s.pending, idx) is None ==> after == s && data is None
            &&& lookup(s.pending, idx) is Some ==> (after.pending.contains(e) <==> e.0 != idx
                && !old)
            &&& after.next_idx == s.next_idx && after.queues == s.queues
        }),
{
    let keep = Stage::behind(idx);
    let e = s.pending[k];
    let left = s.pending.filter(keep);
    assert(s.pending.contains(e));
    if keep(e) {
        s.pending.lemma_filter_contains(keep, k);
        assert(left.contains(e));
    } else if left.contains(e) {
        let i = choose|i: int| 0 <= i < left.len() && left[i] == e;
        s.pending.lemma_filter_pred(keep, i);
    }
    if lookup(s.pending, idx) is None {
        assert(s.take(idx).1.pending[k] == e);
    }
}

} // verus!
