//! Drives the caption encoders once per video frame: the grid of frames, the
//! text fed for each of them, and the caption data kept until its frame comes.
use std::collections::VecDeque;
use vstd::prelude::*;

use crate::captions::{
    pieces, CaptionHandle, Inbox, LaneCounters, Line, Piece, CHARS_PER_S, LEAD_FRAMES, MAX_AHEAD,
    MAX_BACKLOG_S, MAX_QUEUED_CHARS, MAX_TIMEOUTS_IN_ROW, REANCHOR, REBUILD_DELAY_MS,
};
use crate::chars::to_chars;
use crate::config::{CaptionMode, Captions};
use crate::counter::{count, counted};
use crate::lanes::LaneSpec;

verus! {

/// What to do about the encoder before a frame.
#[derive(Clone, Copy, Debug, PartialEq, Eq, Structural)]
pub enum EncoderStep {
    /// It runs at the frame rate.
    Ready,
    /// It failed a moment ago: no captions on this frame.
    Wait,
    /// Drop it, build one for the frame rate, and report the outcome.
    Build,
}

/// The caption stage.
pub struct Captioner {
    hold_ms: u32,
    roll_up: bool,
    enc: Option<(i32, i32)>,
    retry_at: Option<u64>,
    rate: (i32, i32),
    last: Option<(i64, i64)>,
    next_idx: u64,
    pending: Vec<(u64, Vec<u8>)>,
    queues: Vec<VecDeque<Line>>,
    errors: u64,
}

/// What the caption stage knows.
#[verifier::ext_equal]
pub struct Stage {
    /// How long a piece of text is shown (pop-on, paint-on).
    pub hold_ms: u32,
    pub roll_up: bool,
    /// The frame rate the encoder runs at, if it runs.
    pub enc: Option<(i32, i32)>,
    /// When a failed encoder may be built again.
    pub retry_at: Option<u64>,
    /// The frame rate of the grid, frames per so many seconds.
    pub rate: (i32, i32),
    /// The last frame's presentation time and index.
    pub last: Option<(i64, i64)>,
    /// The first frame not fed yet.
    pub next_idx: u64,
    /// Caption data kept for frames, in their order.
    pub pending: Seq<(u64, Seq<u8>)>,
    /// Text that waits for each lane's encoder.
    pub queues: Seq<Seq<Piece>>,
    /// Encoder failures.
    pub errors: u64,
}

/// The quotient rounded to the nearest integer, halves away from zero.
pub open spec fn rounded(a: int, b: int) -> int {
    if a >= 0 {
        (2 * a + b) / (2 * b)
    } else {
        -((-2 * a + b) / (2 * b))
    }
}

/// The characters in pieces of text.
pub open spec fn total_chars(queue: Seq<Piece>) -> nat
    decreases queue.len(),
{
    if queue.len() == 0 {
        0
    } else {
        total_chars(queue.drop_last()) + queue.last().text.len()
    }
}

/// Encoder lead and queued text together take no longer than the cap: the lead
/// in seconds is `lead * rate.1 / rate.0`.
pub open spec fn within_cap(queue: Seq<Piece>, lead: u64, rate: (i32, i32)) -> bool {
    CHARS_PER_S * lead * rate.1 + total_chars(queue) * rate.0 <= MAX_BACKLOG_S * CHARS_PER_S
        * rate.0
}

/// The queue without its oldest text, as far as the cap asks.
pub open spec fn capped(queue: Seq<Piece>, lead: u64, rate: (i32, i32)) -> Seq<Piece>
    decreases queue.len(),
{
    if queue.len() == 0 || within_cap(queue, lead, rate) {
        queue
    } else {
        capped(queue.drop_first(), lead, rate)
    }
}

/// The entry of a frame.
pub open spec fn lookup(pending: Seq<(u64, Seq<u8>)>, idx: u64) -> Option<Seq<u8>>
    decreases pending.len(),
{
    if pending.len() == 0 {
        None
    } else if pending.last().0 == idx {
        Some(pending.last().1)
    } else {
        lookup(pending.drop_last(), idx)
    }
}

impl Stage {
    /// The stage works on a real frame rate and keeps data for fed frames in
    /// their order.
    pub open spec fn wf(self) -> bool {
        &&& self.rate.0 > 0
        &&& self.rate.1 > 0
        &&& self.next_idx <= i64::MAX
        &&& forall|i: int|
            0 <= i < self.pending.len() ==> (#[trigger] self.pending[i]).0 < self.next_idx
        &&& forall|i: int, j: int|
            0 <= i < j < self.pending.len() ==> self.pending[i].0 < self.pending[j].0
    }

    /// What to do about the encoder, and the stage then.
    pub open spec fn ensure(self, fps: (i32, i32), now_ms: u64) -> (EncoderStep, Stage) {
        if self.enc == Some(fps) {
            (EncoderStep::Ready, self)
        } else if self.retry_at matches Some(t) && now_ms < t {
            (EncoderStep::Wait, self)
        } else {
            (EncoderStep::Build, Stage { enc: None, ..self })
        }
    }

    /// A new encoder runs: the grid starts over.
    pub open spec fn built(self, fps: (i32, i32)) -> Stage {
        Stage {
            enc: Some(fps),
            retry_at: None,
            rate: fps,
            last: None,
            next_idx: 0,
            pending: seq![],
            ..self
        }
    }

    /// The encoder is gone, and is built again after a while.
    pub open spec fn failed(self, now_ms: u64) -> Stage {
        Stage {
            enc: None,
            retry_at: Some((now_ms + REBUILD_DELAY_MS) as u64),
            errors: counted(self.errors, 1),
            ..self
        }
    }

    /// Frames each text piece may occupy.
    pub open spec fn hold_frames(self) -> int {
        if self.roll_up {
            1
        } else {
            let n = rounded(self.hold_ms * self.rate.0, 1000 * self.rate.1);
            if n < 1 {
                1
            } else {
                n
            }
        }
    }

    /// Where a presentation time lies on the grid, counted from the last frame.
    pub open spec fn index_of(self, pts: i64) -> int {
        match self.last {
            Some((pts0, idx0)) => idx0 + rounded(
                (pts - pts0) * self.rate.0,
                1_000_000_000 * self.rate.1,
            ),
            None => self.next_idx as int,
        }
    }

    /// The index is too far from the next frame: the grid is anchored anew.
    pub open spec fn strays(self, pts: i64) -> bool {
        let idx = self.index_of(pts);
        idx >= self.next_idx + REANCHOR || idx < self.next_idx - REANCHOR
    }

    /// The frame's index, and the stage with the grid on it.
    pub open spec fn align(self, pts: i64) -> (int, Stage) {
        let idx = if self.strays(pts) {
            self.next_idx as int
        } else {
            self.index_of(pts)
        };
        (
            idx,
            Stage {
                last: Some((pts, idx as i64)),
                pending: if self.strays(pts) {
                    seq![]
                } else {
                    self.pending
                },
                ..self
            },
        )
    }

    /// A line that was received joins its lane's queue.
    pub open spec fn enqueue(self, p: Piece) -> Stage {
        if 0 <= p.lane < self.queues.len() {
            Stage {
                queues: self.queues.update(p.lane, self.queues[p.lane].push(p)),
                ..self
            }
        } else {
            self
        }
    }

    /// Every line in the list joins its lane's queue.
    pub open spec fn enqueue_all(self, list: Seq<Piece>) -> Stage
        decreases list.len(),
    {
        if list.len() == 0 {
            self
        } else {
            self.enqueue(list[0]).enqueue_all(list.drop_first())
        }
    }

    /// The oldest text of a lane may be shown, and the encoder is ready for it.
    pub open spec fn may_feed(queue: Seq<Piece>, lead: u64, now_ms: u64) -> bool {
        lead <= LEAD_FRAMES && queue.len() > 0 && queue[0].due_ms <= now_ms
    }

    /// The text that a lane's encoder gets, and the lane's queue behind it.
    pub open spec fn feed_lane(self, lane: int, lead: u64, now_ms: u64) -> (
        Option<Piece>,
        Seq<Piece>,
    ) {
        let queue = capped(self.queues[lane], lead, self.rate);
        if Stage::may_feed(queue, lead, now_ms) {
            (Some(queue[0]), queue.drop_first())
        } else {
            (None, queue)
        }
    }

    /// A frame's caption data is kept until the frame comes.
    pub open spec fn store(self, data: Seq<u8>) -> Stage {
        Stage {
            pending: self.pending.push((self.next_idx, data)),
            next_idx: (self.next_idx + 1) as u64,
            ..self
        }
    }

    /// Data that is kept when a frame has been served: that of other frames,
    /// unless it is too old.
    pub open spec fn behind(idx: u64) -> spec_fn((u64, Seq<u8>)) -> bool {
        |e: (u64, Seq<u8>)| e.0 != idx && e.0 + MAX_AHEAD >= idx
    }

    /// A frame's caption data, and the stage without it and without what is
    /// too old.
    pub open spec fn take(self, idx: u64) -> (Option<Seq<u8>>, Stage) {
        match lookup(self.pending, idx) {
            None => (None, self),
            Some(data) => (
                if data.len() > 0 {
                    Some(data)
                } else {
                    None
                },
                Stage {
                    pending: self.pending.filter(Stage::behind(idx)),
                    ..self
                },
            ),
        }
    }
}

/// Caption data kept for frames.
pub open spec fn kept(pending: Seq<(u64, Vec<u8>)>) -> Seq<(u64, Seq<u8>)> {
    pending.map_values(|e: (u64, Vec<u8>)| (e.0, e.1@))
}

/// What waits in queues.
pub open spec fn queued(queues: Seq<VecDeque<Line>>) -> Seq<Seq<Piece>> {
    queues.map_values(|q: VecDeque<Line>| pieces(q@))
}

impl View for Captioner {
    type V = Stage;

    closed spec fn view(&self) -> Stage {
        Stage {
            hold_ms: self.hold_ms,
            roll_up: self.roll_up,
            enc: self.enc,
            retry_at: self.retry_at,
            rate: self.rate,
            last: self.last,
            next_idx: self.next_idx,
            pending: kept(self.pending@),
            queues: queued(self.queues@),
            errors: self.errors,
        }
    }
}

/// The quotient rounded to the nearest integer, halves away from zero.
fn round_div(a: i128, b: i128) -> (r: i128)
    requires
        -0x1000_0000_0000_0000_0000_0000_0000 <= a <= 0x1000_0000_0000_0000_0000_0000_0000,
        0 < b <= 0x1000_0000_0000_0000_0000_0000_0000,
    ensures
        r == rounded(a as int, b as int),
        -0x2000_0000_0000_0000_0000_0000_0000 <= r <= 0x2000_0000_0000_0000_0000_0000_0000,
{
    proof {
        let top = 2 * (if a >= 0 {
            a as int
        } else {
            -(a as int)
        }) + b;
        let q = top / (2 * b as int);
        assert(0 <= q <= top) by (nonlinear_arith)
            requires
                q == top / (2 * b as int),
                top >= 0,
                b > 0,
        ;
        assert(q <= top / 2) by (nonlinear_arith)
            requires
                q == top / (2 * b as int),
                top >= 0,
                b > 0,
        ;
    }
    if a >= 0 {
        (2 * a + b) / (2 * b)
    } else {
        let m: i128 = -a;
        -((2 * m + b) / (2 * b))
    }
}

/// The characters that wait, or one more than the cap allows at most.
fn count_chars(queue: &VecDeque<Line>) -> (r: u64)
    ensures
        r == if total_chars(pieces(queue@)) > MAX_QUEUED_CHARS {
            (MAX_QUEUED_CHARS + 1) as nat
        } else {
            total_chars(pieces(queue@))
        },
{
    let mut total: u64 = 0;
    let mut i: usize = 0;
    let ghost all = pieces(queue@);
    while i < queue.len()
        invariant
            i <= queue@.len(),
            all == pieces(queue@),
            total == total_chars(all.take(i as int)),
            total <= MAX_QUEUED_CHARS,
        decreases queue.len() - i,
    {
        let n: usize = to_chars(queue[i].text.as_str()).len();
        proof {
            assert(all.take(i + 1).drop_last() =~= all.take(i as int));
            assert(all.take(i + 1).last().text == queue@[i as int].text@);
        }
        if n as u64 > MAX_QUEUED_CHARS - total {
            proof {
                lemma_chars_grow(all, i + 1);
            }
            return MAX_QUEUED_CHARS + 1;
        }
        total = total + n as u64;
        i += 1;
    }
    assert(all.take(all.len() as int) =~= all);
    total
}

proof fn lemma_chars_grow(queue: Seq<Piece>, n: int)
    requires
        0 <= n <= queue.len(),
    ensures
        total_chars(queue.take(n)) <= total_chars(queue),
    decreases queue.len() - n,
{
    if n == queue.len() {
        assert(queue.take(n) =~= queue);
    } else {
        assert(queue.take(n + 1).drop_last() =~= queue.take(n));
        lemma_chars_grow(queue, n + 1);
    }
}

fn fits(queue: &VecDeque<Line>, lead: u64, rate: (i32, i32)) -> (r: bool)
    requires
        rate.0 > 0,
        rate.1 > 0,
    ensures
        r == within_cap(pieces(queue@), lead, rate),
{
    let chars = count_chars(queue);
    let ghost total = total_chars(pieces(queue@));
    let n: u128 = rate.0 as u128;
    let d: u128 = rate.1 as u128;
    proof {
        assert(CHARS_PER_S * lead * rate.1 >= 0) by (nonlinear_arith)
            requires
                rate.1 > 0,
        ;
        if total > MAX_QUEUED_CHARS {
            assert(total * rate.0 > 240 * rate.0) by (nonlinear_arith)
                requires
                    total > 240,
                    rate.0 > 0,
            ;
        }
        assert(MAX_BACKLOG_S * CHARS_PER_S * rate.0 == 240 * rate.0) by (nonlinear_arith);
    }
    if chars > MAX_QUEUED_CHARS {
        return false;
    }
    assert(CHARS_PER_S * lead * d <= 0x20_0000_0000_0000_0000_0000_0000 && CHARS_PER_S * lead * d
        == CHARS_PER_S * lead * rate.1) by (nonlinear_arith)
        requires
            d == rate.1,
            0 < rate.1 <= 0x7FFF_FFFF,
            lead <= 0xFFFF_FFFF_FFFF_FFFF,
            CHARS_PER_S == 40,
    ;
    assert(chars * n <= 0x1_0000_0000_0000 && chars * n == total * rate.0) by (nonlinear_arith)
        requires
            n == rate.0,
            chars == total,
            0 < rate.0 <= 0x7FFF_FFFF,
            chars <= 240,
    ;
    CHARS_PER_S as u128 * lead as u128 * d + chars as u128 * n <= 240 * n
}

fn cap(queue: &mut VecDeque<Line>, lead: u64, rate: (i32, i32)) -> (dropped: u64)
    requires
        rate.0 > 0,
        rate.1 > 0,
        old(queue)@.len() <= u64::MAX,
    ensures
        pieces(final(queue)@) == capped(pieces(old(queue)@), lead, rate),
        dropped == old(queue)@.len() - final(queue)@.len(),
{
    let ghost target = capped(pieces(queue@), lead, rate);
    let ghost start = queue@.len();
    let mut dropped: u64 = 0;
    while queue.len() > 0 && !fits(queue, lead, rate)
        invariant
            rate.0 > 0,
            rate.1 > 0,
            start <= u64::MAX,
            dropped + queue@.len() == start,
            capped(pieces(queue@), lead, rate) == target,
        decreases queue@.len(),
    {
        let ghost before = queue@;
        let gone = queue.pop_front();
        assert(pieces(queue@) =~= pieces(before).drop_first());
        dropped = dropped + 1;
    }
    dropped
}

impl Captioner {
    /// A stage and the handle that feeds it. A negative caption offset would
    /// need video delay and counts as none.
    pub fn new(specs: &[LaneSpec], c: &Captions) -> (r: (Self, CaptionHandle))
        ensures
            r.0@ == (Stage {
                hold_ms: c.clear_after_ms,
                roll_up: c.mode == CaptionMode::RollUp,
                enc: None,
                retry_at: None,
                rate: (30i32, 1i32),
                last: None,
                next_idx: 0,
                pending: seq![],
                queues: Seq::new(specs@.len(), |i: int| Seq::<Piece>::empty()),
                errors: 0,
            }),
            r.0@.wf(),
            r.1@ == (Inbox {
                langs: specs@.map_values(|s: LaneSpec| s.lang@),
                lines: seq![],
                counters: Seq::new(
                    specs@.len(),
                    |i: int| LaneCounters { pushed: 0, dropped: 0, queued: 0 },
                ),
                offset_ms: if c.offset_ms < 0 {
                    0u64
                } else {
                    c.offset_ms as u64
                },
            }),
            r.1@.wf(),
    {
        let mut queues: Vec<VecDeque<Line>> = Vec::new();
        let mut i: usize = 0;
        while i < specs.len()
            invariant
                i <= specs@.len(),
                queues@.len() == i,
                forall|k: int| 0 <= k < i ==> (#[trigger] queues@[k])@.len() == 0,
            decreases specs.len() - i,
        {
            queues.push(VecDeque::new());
            i += 1;
        }
        let stage = Captioner {
            hold_ms: c.clear_after_ms,
            roll_up: c.mode == CaptionMode::RollUp,
            enc: None,
            retry_at: None,
            rate: (30, 1),
            last: None,
            next_idx: 0,
            pending: Vec::new(),
            queues,
            errors: 0,
        };
        proof {
            assert(kept(stage.pending@) =~= seq![]);
            assert(queued(stage.queues@) =~= Seq::new(
                specs@.len(),
                |i: int| Seq::<Piece>::empty(),
            )) by {
                assert forall|k: int| 0 <= k < specs@.len() implies queued(stage.queues@)[k]
                    == Seq::<Piece>::empty() by {
                    assert(stage.queues@[k]@.len() == 0);
                    assert(pieces(stage.queues@[k]@) =~= Seq::<Piece>::empty());
                }
            }
        }
        let offset_ms: u64 = if c.offset_ms < 0 {
            0
        } else {
            c.offset_ms as u64
        };
        (stage, CaptionHandle::new(specs, offset_ms))
    }

    /// Whether text rolls up.
    pub fn rolls_up(&self) -> (r: bool)
        ensures
            r == self@.roll_up,
    {
        self.roll_up
    }

    /// Encoder failures so far.
    pub fn errors(&self) -> (r: u64)
        ensures
            r == self@.errors,
    {
        self.errors
    }

    /// The first frame not fed yet.
    pub fn next_index(&self) -> (r: u64)
        ensures
            r == self@.next_idx,
    {
        self.next_idx
    }

    /// Whether an encoder runs.
    pub fn has_encoder(&self) -> (r: bool)
        ensures
            r == self@.enc is Some,
    {
        self.enc.is_some()
    }

    /// Decides whether the encoder can be used for frames at `fps`.
    pub fn ensure_encoder(&mut self, fps: (i32, i32), now_ms: u64) -> (r: EncoderStep)
        requires
            old(self)@.wf(),
        ensures
            (r, final(self)@) == old(self)@.ensure(fps, now_ms),
            final(self)@.wf(),
    {
        if let Some((n, d)) = self.enc {
            if n == fps.0 && d == fps.1 {
                return EncoderStep::Ready;
            }
        }
        if let Some(t) = self.retry_at {
            if now_ms < t {
                return EncoderStep::Wait;
            }
        }
        self.enc = None;
        EncoderStep::Build
    }

    /// Reports that an encoder was built for `fps`.
    pub fn built(&mut self, fps: (i32, i32))
        requires
            old(self)@.wf(),
            fps.0 > 0,
            fps.1 > 0,
        ensures
            final(self)@ == old(self)@.built(fps),
            final(self)@.wf(),
    {
        self.enc = Some(fps);
        self.retry_at = None;
        self.rate = fps;
        self.last = None;
        self.next_idx = 0;
        self.pending = Vec::new();
        assert(kept(self.pending@) =~= seq![]);
    }

    /// Drops the encoder so it is rebuilt, after a delay, on a later frame.
    pub fn fail(&mut self, now_ms: u64)
        requires
            old(self)@.wf(),
            now_ms + REBUILD_DELAY_MS <= u64::MAX,
        ensures
            final(self)@ == old(self)@.failed(now_ms),
            final(self)@.wf(),
    {
        self.errors = count(self.errors, 1);
        self.enc = None;
        self.retry_at = Some(now_ms + REBUILD_DELAY_MS);
    }

    /// Frames each text piece may occupy (pop-on, paint-on: display time).
    pub fn hold_frames(&self) -> (r: u64)
        requires
            self@.wf(),
        ensures
            r == self@.hold_frames(),
    {
        if self.roll_up {
            return 1;
        }
        proof {
            assert(0 <= self.hold_ms * self.rate.0 <= 0xFFFF_FFFF * 0x7FFF_FFFF)
                by (nonlinear_arith)
                requires
                    0 <= self.hold_ms <= 0xFFFF_FFFF,
                    0 < self.rate.0 <= 0x7FFF_FFFF,
            ;
        }
        let a: i128 = self.hold_ms as i128 * self.rate.0 as i128;
        let b: i128 = 1000 * self.rate.1 as i128;
        let n: i128 = round_div(a, b);
        proof {
            assert(0 <= n <= a + 1) by (nonlinear_arith)
                requires
                    n == (2 * a + b) / (2 * b),
                    a >= 0,
                    b > 0,
            ;
        }
        if n < 1 {
            1
        } else {
            n as u64
        }
    }

    /// The frame of a presentation time, if it does not lie before the grid.
    /// Frames up to it are to be fed and stored first.
    pub fn align(&mut self, pts: i64) -> (r: Option<u64>)
        requires
            old(self)@.wf(),
            old(self)@.next_idx + REANCHOR <= i64::MAX,
        ensures
            final(self)@ == old(self)@.align(pts).1,
            final(self)@.wf(),
            ({
                let idx = old(self)@.align(pts).0;
                r == if idx < 0 {
                    None
                } else {
                    Some(idx as u64)
                }
            }),
    {
        let next: i128 = self.next_idx as i128;
        let idx: i128 = match self.last {
            Some((pts0, idx0)) => {
                let away: i128 = pts as i128 - pts0 as i128;
                let n: i128 = self.rate.0 as i128;
                proof {
                    assert(-0x1_0000_0000_0000_0000 * 0x7FFF_FFFF <= away * n
                        <= 0x1_0000_0000_0000_0000 * 0x7FFF_FFFF) by (nonlinear_arith)
                        requires
                            -0x1_0000_0000_0000_0000 <= away <= 0x1_0000_0000_0000_0000,
                            0 < n <= 0x7FFF_FFFF,
                    ;
                }
                idx0 as i128 + round_div(away * n, 1_000_000_000 * self.rate.1 as i128)
            },
            None => next,
        };
        let mut at: i64 = self.next_idx as i64;
        if idx >= next + REANCHOR as i128 || idx < next - REANCHOR as i128 {
            self.pending = Vec::new();
            assert(kept(self.pending@) =~= seq![]);
        } else {
            at = idx as i64;
        }
        self.last = Some((pts, at));
        if at < 0 {
            None
        } else {
            Some(at as u64)
        }
    }

    /// Moves every line that waits in the handle to its lane's queue.
    pub fn receive(&mut self, handle: &mut CaptionHandle)
        requires
            old(self)@.wf(),
            old(handle)@.wf(),
        ensures
            final(self)@ == old(self)@.enqueue_all(old(handle)@.lines),
            final(self)@.wf(),
            final(handle)@ == (Inbox { lines: seq![], ..old(handle)@ }),
            final(handle)@.wf(),
    {
        let ghost target = self@.enqueue_all(handle@.lines);
        loop
            invariant_except_break
                self@.wf(),
                handle@.wf(),
                self@.enqueue_all(handle@.lines) == target,
                handle@ == (Inbox { lines: handle@.lines, ..old(handle)@ }),
            ensures
                self@.wf(),
                handle@.wf(),
                self@ == target,
                handle@ == (Inbox { lines: seq![], ..old(handle)@ }),
            decreases handle@.lines.len(),
        {
            let ghost waiting = handle@.lines;
            match handle.receive() {
                Some(line) => {
                    let ghost p = line@;
                    self.enqueue(line);
                    assert(p == waiting[0]);
                },
                None => {
                    assert(handle@.lines =~= seq![]);
                    break;
                },
            }
        }
    }

    fn enqueue(&mut self, line: Line)
        ensures
            final(self)@ == old(self)@.enqueue(line@),
    {
        let ghost before = self@;
        let ghost queues0 = self.queues@;
        let lane = line.lane;
        if lane < self.queues.len() {
            self.queues[lane].push_back(line);
            proof {
                assert(pieces(self.queues@[lane as int]@) =~= pieces(queues0[lane as int]@).push(
                    line@,
                ));
                assert(queued(self.queues@) =~= before.queues.update(
                    lane as int,
                    before.queues[lane as int].push(line@),
                ));
            }
        }
    }

    /// Drops a lane's oldest text as far as the backlog cap asks, and takes
    /// the text that the lane's encoder, `lead` frames ahead, is to get now.
    pub fn feed_lane(
        &mut self,
        handle: &mut CaptionHandle,
        lane: usize,
        lead: u64,
        now_ms: u64,
    ) -> (r: Option<Line>)
        requires
            old(self)@.wf(),
            old(handle)@.wf(),
            lane < old(self)@.queues.len(),
            lane < old(handle)@.counters.len(),
            old(self)@.queues[lane as int].len() <= u64::MAX,
        ensures
            ({
                let (piece, queue) = old(self)@.feed_lane(lane as int, lead, now_ms);
                &&& r matches Some(line) ==> piece == Some(line@)
                &&& r is None ==> piece is None
                &&& final(self)@ == (Stage {
                    queues: old(self)@.queues.update(lane as int, queue),
                    ..old(self)@
                })
            }),
            final(self)@.wf(),
            final(handle)@ == old(handle)@.dropped(
                lane as int,
                (old(self)@.queues[lane as int].len() - capped(
                    old(self)@.queues[lane as int],
                    lead,
                    old(self)@.rate,
                ).len()) as nat,
            ),
            final(handle)@.wf(),
    {
        let ghost before = self@;
        let ghost queues0 = self.queues@;
        let rate = self.rate;
        assert(before.queues[lane as int] == pieces(queues0[lane as int]@));
        let dropped = cap(&mut self.queues[lane], lead, rate);
        handle.drop_on(lane, dropped);
        let ghost queue = pieces(self.queues@[lane as int]@);
        let mut out: Option<Line> = None;
        if lead <= LEAD_FRAMES && self.queues[lane].len() > 0 && self.queues[lane][0].due_ms
            <= now_ms {
            let ghost held = self.queues@[lane as int]@;
            out = self.queues[lane].pop_front();
            assert(pieces(self.queues@[lane as int]@) =~= queue.drop_first());
            assert(queue[0] == held[0]@);
        }
        proof {
            let after = pieces(self.queues@[lane as int]@);
            assert(queued(self.queues@) =~= before.queues.update(lane as int, after));
        }
        out
    }

    /// Counts what became of a lane's text, and what still waits.
    pub fn count_lane(&self, handle: &mut CaptionHandle, lane: usize, pushed: Option<bool>)
        requires
            old(handle)@.wf(),
            lane < self@.queues.len(),
            lane < old(handle)@.counters.len(),
            self@.queues[lane as int].len() <= u64::MAX,
        ensures
            final(handle)@.wf(),
            ({
                let c = old(handle)@.counters[lane as int];
                final(handle)@ == (Inbox {
                    counters: old(handle)@.counters.update(
                        lane as int,
                        LaneCounters {
                            pushed: counted(c.pushed, if pushed == Some(true) {
                                1
                            } else {
                                0
                            }),
                            dropped: counted(c.dropped, if pushed == Some(false) {
                                1
                            } else {
                                0
                            }),
                            queued: self@.queues[lane as int].len() as u64,
                        },
                    ),
                    ..old(handle)@
                })
            }),
    {
        assert(self@.queues[lane as int].len() == self.queues@[lane as int]@.len());
        let waiting = self.queues[lane].len() as u64;
        handle.note(lane, pushed, waiting);
    }

    /// Keeps the caption data of the next frame. If the encoder has brought
    /// nothing for too many frames, it is dropped and false is returned.
    pub fn store(&mut self, data: Vec<u8>, timeouts_in_row: u64, now_ms: u64) -> (r: bool)
        requires
            old(self)@.wf(),
            old(self)@.next_idx < i64::MAX,
            now_ms + REBUILD_DELAY_MS <= u64::MAX,
        ensures
            r == (timeouts_in_row <= MAX_TIMEOUTS_IN_ROW),
            final(self)@ == if r {
                old(self)@.store(data@)
            } else {
                old(self)@.store(data@).failed(now_ms)
            },
            final(self)@.wf(),
    {
        let ghost before = self@;
        self.pending.push((self.next_idx, data));
        self.next_idx = self.next_idx + 1;
        assert(kept(self.pending@) =~= before.pending.push((before.next_idx, data@)));
        if timeouts_in_row > MAX_TIMEOUTS_IN_ROW {
            self.fail(now_ms);
            return false;
        }
        true
    }

    /// The caption data for a frame, if there is any to attach.
    pub fn take(&mut self, idx: u64) -> (r: Option<Vec<u8>>)
        requires
            old(self)@.wf(),
        ensures
            ({
                let (data, after) = old(self)@.take(idx);
                &&& r matches Some(d) ==> data == Some(d@)
                &&& r is None ==> data is None
                &&& final(self)@ == after
            }),
            final(self)@.wf(),
    {
        let ghost all = kept(self.pending@);
        let mut found: Option<usize> = None;
        let mut i: usize = self.pending.len();
        assert(all.take(all.len() as int) =~= all);
        while i > 0 && found.is_none()
            invariant
                i <= self.pending@.len(),
                all == kept(self.pending@),
                match found {
                    None => lookup(all, idx) == lookup(all.take(i as int), idx),
                    Some(k) => k < self.pending@.len() && self.pending@[k as int].0 == idx
                        && lookup(all, idx) == Some(self.pending@[k as int].1@),
                },
            decreases i,
        {
            assert(all.take(i as int).drop_last() =~= all.take(i - 1));
            assert(all.take(i as int).last() == all[i - 1]);
            if self.pending[i - 1].0 == idx {
                found = Some(i - 1);
            }
            i -= 1;
        }
        let at = match found {
            None => return None,
            Some(k) => k,
        };
        let ghost held = self.pending@;
        let ghost keep = Stage::behind(idx);
        let (slot, data) = self.pending.remove(at);
        let ghost rest = self.pending@;
        proof {
            assert(slot == idx && data@ == lookup(all, idx)->0);
            lemma_filter_remove(all, at as int, keep);
            assert(kept(rest) =~= all.remove(at as int));
            lemma_distinct(all, at as int);
        }
        let stale: u64 = if idx >= MAX_AHEAD {
            idx - MAX_AHEAD
        } else {
            0
        };
        let mut first: usize = 0;
        while first < self.pending.len() && self.pending[first].0 < stale
            invariant
                first <= self.pending@.len(),
                self.pending@ == rest,
                forall|k: int| 0 <= k < first ==> (#[trigger] rest[k]).0 < stale,
            decreases self.pending.len() - first,
        {
            first += 1;
        }
        let fresh = self.pending.split_off(first);
        self.pending = fresh;
        proof {
            let cut = all.remove(at as int);
            assert forall|i: int, j: int| 0 <= i < j < cut.len() implies cut[i].0 < cut[j].0 by {
                let a = if i < at {
                    i
                } else {
                    i + 1
                };
                let b = if j < at {
                    j
                } else {
                    j + 1
                };
                assert(cut[i] == all[a] && cut[j] == all[b]);
            }
            assert forall|k: int| 0 <= k < cut.len() implies #[trigger] keep(cut[k]) == (k >= first) by {
                assert(cut[k].0 == rest[k].0);
                let a = if k < at {
                    k
                } else {
                    k + 1
                };
                assert(cut[k] == all[a]);
                if k >= first {
                    assert(rest[first as int].0 >= stale);
                    if k > first {
                        assert(cut[first as int].0 < cut[k].0);
                    }
                }
            }
            lemma_filter_is_tail(cut, first as int, keep);
            assert(kept(self.pending@) =~= cut.skip(first as int));
            assert forall|i: int| 0 <= i < self@.pending.len() implies (#[trigger] self@.pending[i]).0
                < self@.next_idx by {
                let k = i + first;
                assert(self@.pending[i] == cut[k]);
                let a = if k < at {
                    k
                } else {
                    k + 1
                };
                assert(cut[k] == all[a]);
            }
            assert forall|i: int, j: int| 0 <= i < j < self@.pending.len() implies self@.pending[i].0
                < self@.pending[j].0 by {
                assert(self@.pending[i] == cut[i + first]);
                assert(self@.pending[j] == cut[j + first]);
            }
        }
        if data.len() == 0 {
            None
        } else {
            Some(data)
        }
    }
}

proof fn lemma_distinct(s: Seq<(u64, Seq<u8>)>, at: int)
    requires
        0 <= at < s.len(),
        forall|i: int, j: int| 0 <= i < j < s.len() ==> s[i].0 < s[j].0,
    ensures
        forall|i: int| 0 <= i < s.len() && i != at ==> (#[trigger] s[i]).0 != s[at].0,
{
}

/// Filtering does not miss an entry that is filtered out.
proof fn lemma_filter_remove(
    s: Seq<(u64, Seq<u8>)>,
    at: int,
    keep: spec_fn((u64, Seq<u8>)) -> bool,
)
    requires
        0 <= at < s.len(),
        !keep(s[at]),
    ensures
        s.filter(keep) == s.remove(at).filter(keep),
    decreases s.len(),
{
    reveal(Seq::filter);
    let cut = s.remove(at);
    if at == s.len() - 1 {
        assert(cut =~= s.drop_last());
    } else {
        assert(cut.drop_last() =~= s.drop_last().remove(at));
        assert(cut.last() == s.last());
        lemma_filter_remove(s.drop_last(), at, keep);
    }
}

proof fn lemma_filter_all(s: Seq<(u64, Seq<u8>)>, keep: spec_fn((u64, Seq<u8>)) -> bool)
    requires
        forall|k: int| 0 <= k < s.len() ==> !#[trigger] keep(s[k]),
    ensures
        s.filter(keep) =~= seq![],
    decreases s.len(),
{
    reveal(Seq::filter);
    if s.len() > 0 {
        assert(!keep(s[s.len() - 1]));
        assert forall|k: int| 0 <= k < s.drop_last().len() implies !#[trigger] keep(
            s.drop_last()[k],
        ) by {
            assert(!keep(s[k]));
        }
        lemma_filter_all(s.drop_last(), keep);
    }
}

/// Filtering keeps a tail when exactly the tail passes.
proof fn lemma_filter_is_tail(
    s: Seq<(u64, Seq<u8>)>,
    first: int,
    keep: spec_fn((u64, Seq<u8>)) -> bool,
)
    requires
        0 <= first <= s.len(),
        forall|k: int| 0 <= k < s.len() ==> #[trigger] keep(s[k]) == (k >= first),
    ensures
        s.filter(keep) == s.skip(first),
    decreases s.len(),
{
    reveal(Seq::filter);
    if first == s.len() {
        lemma_filter_all(s, keep);
        assert(s.skip(first) =~= seq![]);
    } else {
        let init = s.drop_last();
        assert(keep(s[s.len() - 1]));
        assert forall|k: int| 0 <= k < init.len() implies #[trigger] keep(init[k]) == (k
            >= first) by {
            assert(init[k] == s[k]);
            assert(keep(s[k]) == (k >= first));
        }
        lemma_filter_is_tail(init, first, keep);
        assert(s.skip(first) =~= init.skip(first).push(s.last()));
    }
}

/// A frame's index lies close to the first frame not fed, so a jump never asks
/// for more than a bounded number of frames at once.
pub proof fn law_grid_stays_close(s: Stage, pts: i64)
    requires
        s.wf(),
    ensures
        s.next_idx - 90 <= s.align(pts).0 < s.next_idx + 90,
{
}

/// At a steady frame rate each frame gets the index behind the last one: a
/// frame whose time is within half a frame of the expected one is the next.
pub proof fn law_steady_frames_are_numbered_in_turn(s: Stage, pts: i64)
    requires
        s.wf(),
        s.last matches Some((pts0, idx0)) && idx0 + 1 == s.next_idx && {
            let moved = 2 * (pts - pts0) * s.rate.0;
            let frame = 1_000_000_000 * s.rate.1;
            frame <= moved < 3 * frame
        },
    ensures
        s.align(pts).0 == s.next_idx,
{
    let (pts0, idx0) = s.last->0;
    let a = (pts - pts0) * s.rate.0;
    let b = 1_000_000_000 * s.rate.1;
    assert(2 * (pts - pts0) * s.rate.0 == 2 * a) by (nonlinear_arith)
        requires
            a == (pts - pts0) * s.rate.0,
    ;
    assert(rounded(a, b) == 1) by {
        assert((2 * a + b) / (2 * b) == 1) by (nonlinear_arith)
            requires
                b <= 2 * a < 3 * b,
                b > 0,
        ;
    }
}

/// Feeding a lane leaves no more than the backlog cap allows, drops only the
/// oldest text, and none when everything fits.
pub proof fn law_backlog_is_capped(queue: Seq<Piece>, lead: u64, rate: (i32, i32))
    ensures
        ({
            let left = capped(queue, lead, rate);
            &&& left.len() == 0 || within_cap(left, lead, rate)
            &&& left.len() <= queue.len()
            &&& left == queue.skip(queue.len() - left.len())
            &&& within_cap(queue, lead, rate) ==> left == queue
        }),
    decreases queue.len(),
{
    let left = capped(queue, lead, rate);
    if queue.len() == 0 || within_cap(queue, lead, rate) {
        assert(queue.skip(0) =~= queue);
    } else {
        law_backlog_is_capped(queue.drop_first(), lead, rate);
        let rest = queue.drop_first();
        assert(rest.skip(rest.len() - left.len()) =~= queue.skip(queue.len() - left.len()));
    }
}

/// What was stored for a frame is what the frame gets.
pub proof fn law_stored_data_is_served(s: Stage, data: Seq<u8>)
    requires
        data.len() > 0,
    ensures
        s.store(data).take(s.next_idx).0 == Some(data),
{
}

/// Text that waits keeps its order on each lane: what is received goes behind
/// what was there, and nothing is lost.
pub proof fn law_received_text_keeps_its_order(s: Stage, list: Seq<Piece>, lane: int)
    requires
        0 <= lane < s.queues.len(),
    ensures
        s.enqueue_all(list).queues.len() == s.queues.len(),
        s.enqueue_all(list).queues[lane] == s.queues[lane] + list.filter(
            |p: Piece| p.lane == lane,
        ),
    decreases list.len(),
{
    let of_lane = |p: Piece| p.lane == lane;
    if list.len() == 0 {
        reveal(Seq::filter);
        assert(s.queues[lane] + list.filter(of_lane) =~= s.queues[lane]);
    } else {
        let first = list[0];
        let rest = list.drop_first();
        law_received_text_keeps_its_order(s.enqueue(first), rest, lane);
        assert(list =~= seq![first] + rest);
        Seq::filter_distributes_over_add(seq![first], rest, of_lane);
        assert(seq![first].filter(of_lane) =~= if of_lane(first) {
            seq![first]
        } else {
            seq![]
        }) by {
            reveal(Seq::filter);
            reveal_with_fuel(Seq::filter, 2);
            assert(seq![first].drop_last() =~= seq![]);
        }
        assert(s.enqueue_all(list).queues[lane] =~= s.queues[lane] + list.filter(of_lane));
    }
}

} // verus!
