//! The frame-by-frame bookkeeping around caption encoders: which frame a buffer
//! belongs to, how far each track's encoder is ahead, and which caption data a
//! frame gets. Times are nanoseconds from the first frame.
use std::collections::VecDeque;
use vstd::prelude::*;

use crate::counter::{count, counted};

verus! {

pub const SECOND_NS: u64 = 1_000_000_000;

/// Output buffers kept at most: a stuck consumer must not grow memory.
pub const MAX_BUFFERS: usize = 256;

/// What the encoders have brought, and what was handed out.
pub struct EncoderQueue {
    fps: (u32, u32),
    fed: Vec<bool>,
    queue: VecDeque<(u64, Vec<u8>)>,
    out_hi: Option<u64>,
    track_hi: Vec<u64>,
    timeouts_in_row: u64,
}

/// The state of a queue.
#[verifier::ext_equal]
pub struct Frames {
    /// Frames per so many seconds.
    pub fps: (u32, u32),
    /// Tracks that already got a buffer covering the current frame.
    pub fed: Seq<bool>,
    /// Output not handed out yet: frame index and caption data.
    pub queue: Seq<(u64, Seq<u8>)>,
    /// Highest frame index seen on the output.
    pub out_hi: Option<u64>,
    /// For each track, one more than the highest frame index its encoder has
    /// output (0 = none).
    pub track_hi: Seq<u64>,
    /// Frames whose output did not arrive in time, in a row.
    pub timeouts_in_row: u64,
}

/// A product, or the largest number that fits.
pub open spec fn saturated(n: int) -> int {
    if n > u64::MAX {
        u64::MAX as int
    } else {
        n
    }
}

impl Frames {
    /// The frame rate is real, and every track is known.
    pub open spec fn wf(self) -> bool {
        &&& 0 < self.fps.0 <= i32::MAX
        &&& 0 < self.fps.1 <= i32::MAX
        &&& self.fed.len() == self.track_hi.len()
        &&& self.queue.len() <= MAX_BUFFERS
    }

    /// The presentation time of a frame.
    pub open spec fn pts(self, i: u64) -> int {
        saturated(saturated(SECOND_NS * i) * self.fps.1) / self.fps.0 as int
    }

    /// The frame that a presentation time is nearest to.
    pub open spec fn idx(self, pts: u64) -> int {
        let den = SECOND_NS * self.fps.1;
        (pts * self.fps.0 + den / 2) / den
    }

    /// How many frames a track's encoder has output beyond a frame.
    pub open spec fn lead(self, track: int, slot: u64) -> int {
        if 0 <= track < self.track_hi.len() && self.track_hi[track] > slot {
            self.track_hi[track] - slot
        } else {
            0
        }
    }

    /// The track is to be told that there is no text on the frame: it got none,
    /// and its encoder is not already ahead (it would never fall back).
    pub open spec fn needs_gap(self, track: int, i: u64) -> bool {
        !self.fed[track] && self.track_hi[track] <= i
    }

    /// A track's encoder has brought output for a frame.
    pub open spec fn seen(self, track: int, idx: u64) -> Frames {
        Frames {
            track_hi: if self.track_hi[track] < idx + 1 {
                self.track_hi.update(track, (idx + 1) as u64)
            } else {
                self.track_hi
            },
            ..self
        }
    }

    /// Output has arrived.
    pub open spec fn take(self, idx: u64, data: Seq<u8>) -> Frames {
        Frames {
            out_hi: match self.out_hi {
                Some(h) => Some(if h < idx {
                    idx
                } else {
                    h
                }),
                None => Some(idx),
            },
            queue: (if self.queue.len() >= MAX_BUFFERS {
                self.queue.drop_first()
            } else {
                self.queue
            }).push((idx, data)),
            ..self
        }
    }

    /// Output for the frame is still to come.
    pub open spec fn waits_for(self, i: u64) -> bool {
        match self.out_hi {
            Some(h) => h < i,
            None => true,
        }
    }

    /// What the frame gets, and the queue behind it.
    pub open spec fn frame(self, i: u64, timed_out: bool) -> (Seq<u8>, Frames) {
        let after = Frames {
            fed: Seq::new(self.fed.len(), |k: int| false),
            timeouts_in_row: if timed_out {
                counted(self.timeouts_in_row, 1)
            } else {
                0
            },
            ..self
        };
        if self.queue.len() > 0 && self.queue[0].0 <= i {
            (self.queue[0].1, Frames { queue: self.queue.drop_first(), ..after })
        } else {
            (seq![], after)
        }
    }
}

/// Caption data in a queue.
pub open spec fn buffers(queue: Seq<(u64, Vec<u8>)>) -> Seq<(u64, Seq<u8>)> {
    queue.map_values(|e: (u64, Vec<u8>)| (e.0, e.1@))
}

impl View for EncoderQueue {
    type V = Frames;

    closed spec fn view(&self) -> Frames {
        Frames {
            fps: self.fps,
            fed: self.fed@,
            queue: buffers(self.queue@),
            out_hi: self.out_hi,
            track_hi: self.track_hi@,
            timeouts_in_row: self.timeouts_in_row,
        }
    }
}

fn saturating_product(a: u64, b: u64) -> (r: u64)
    ensures
        r == saturated(a * b),
{
    assert(a * b <= 0xFFFF_FFFF_FFFF_FFFF * 0xFFFF_FFFF_FFFF_FFFF) by (nonlinear_arith)
        requires
            0 <= a <= 0xFFFF_FFFF_FFFF_FFFF,
            0 <= b <= 0xFFFF_FFFF_FFFF_FFFF,
    ;
    let wide: u128 = a as u128 * b as u128;
    if wide > u64::MAX as u128 {
        u64::MAX
    } else {
        wide as u64
    }
}

impl EncoderQueue {
    /// An empty queue for tracks at a frame rate, or what is wrong.
    pub fn new(tracks: usize, fps: (i32, i32)) -> (r: Option<Self>)
        ensures
            r is Some <==> tracks > 0 && fps.0 > 0 && fps.1 > 0,
            r matches Some(q) ==> {
                &&& q@.wf()
                &&& q@ == (Frames {
                    fps: (fps.0 as u32, fps.1 as u32),
                    fed: Seq::new(tracks as nat, |k: int| false),
                    queue: seq![],
                    out_hi: None,
                    track_hi: Seq::new(tracks as nat, |k: int| 0u64),
                    timeouts_in_row: 0,
                })
            },
    {
        if tracks == 0 || fps.0 <= 0 || fps.1 <= 0 {
            return None;
        }
        let mut fed: Vec<bool> = Vec::new();
        let mut track_hi: Vec<u64> = Vec::new();
        let mut i: usize = 0;
        while i < tracks
            invariant
                i <= tracks,
                fed@ == Seq::new(i as nat, |k: int| false),
                track_hi@ == Seq::new(i as nat, |k: int| 0u64),
            decreases tracks - i,
        {
            fed.push(false);
            track_hi.push(0);
            assert(fed@ =~= Seq::new((i + 1) as nat, |k: int| false));
            assert(track_hi@ =~= Seq::new((i + 1) as nat, |k: int| 0u64));
            i += 1;
        }
        let q = EncoderQueue {
            fps: (fps.0 as u32, fps.1 as u32),
            fed,
            queue: VecDeque::new(),
            out_hi: None,
            track_hi,
            timeouts_in_row: 0,
        };
        assert(buffers(q.queue@) =~= seq![]);
        Some(q)
    }

    /// The presentation time of frame `i`.
    pub fn pts(&self, i: u64) -> (r: u64)
        requires
            self@.wf(),
        ensures
            r == self@.pts(i),
    {
        saturating_product(saturating_product(SECOND_NS, i), self.fps.1 as u64)
            / self.fps.0 as u64
    }

    /// The frame that a presentation time is nearest to.
    pub fn idx(&self, pts: u64) -> (r: u64)
        requires
            self@.wf(),
            self@.idx(pts) <= u64::MAX,
        ensures
            r == self@.idx(pts),
    {
        let n: u128 = self.fps.0 as u128;
        let d: u128 = self.fps.1 as u128;
        assert(pts * n <= 0xFFFF_FFFF_FFFF_FFFF * 0x7FFF_FFFF) by (nonlinear_arith)
            requires
                0 <= pts <= 0xFFFF_FFFF_FFFF_FFFF,
                0 <= n <= 0x7FFF_FFFF,
        ;
        let num: u128 = pts as u128 * n;
        let den: u128 = SECOND_NS as u128 * d;
        ((num + den / 2) / den) as u64
    }

    /// The frame rate.
    pub fn fps(&self) -> (r: (u32, u32))
        ensures
            r == self@.fps,
    {
        self.fps
    }

    /// Frames whose output did not arrive in time, in a row.
    pub fn timeouts_in_row(&self) -> (r: u64)
        ensures
            r == self@.timeouts_in_row,
    {
        self.timeouts_in_row
    }

    /// How many frames `track`'s encoder has output beyond frame `slot`.
    pub fn lead(&self, track: usize, slot: u64) -> (r: u64)
        ensures
            r == self@.lead(track as int, slot),
    {
        if track < self.track_hi.len() && self.track_hi[track] > slot {
            self.track_hi[track] - slot
        } else {
            0
        }
    }

    /// Notes that a track's encoder has brought output at a time.
    pub fn seen(&mut self, track: usize, pts: u64)
        requires
            old(self)@.wf(),
            track < old(self)@.track_hi.len(),
            old(self)@.idx(pts) < u64::MAX,
        ensures
            final(self)@ == old(self)@.seen(track as int, old(self)@.idx(pts) as u64),
            final(self)@.wf(),
    {
        let idx = self.idx(pts);
        if self.track_hi[track] < idx + 1 {
            self.track_hi.set(track, idx + 1);
        }
    }

    /// Notes that a track got text on the current frame.
    pub fn push(&mut self, track: usize)
        requires
            old(self)@.wf(),
            track < old(self)@.fed.len(),
        ensures
            final(self)@ == (Frames {
                fed: old(self)@.fed.update(track as int, true),
                ..old(self)@
            }),
            final(self)@.wf(),
    {
        self.fed.set(track, true);
    }

    /// Whether a track is to be told that frame `i` has no text for it.
    pub fn needs_gap(&self, track: usize, i: u64) -> (r: bool)
        requires
            self@.wf(),
            track < self@.fed.len(),
        ensures
            r == self@.needs_gap(track as int, i),
    {
        !self.fed[track] && self.track_hi[track] <= i
    }

    /// Takes output; without a time it belongs to frame `i`.
    pub fn take(&mut self, pts: Option<u64>, i: u64, data: Vec<u8>)
        requires
            old(self)@.wf(),
            pts matches Some(t) ==> old(self)@.idx(t) <= u64::MAX,
        ensures
            final(self)@ == old(self)@.take(
                match pts {
                    Some(t) => old(self)@.idx(t) as u64,
                    None => i,
                },
                data@,
            ),
            final(self)@.wf(),
    {
        let ghost before = self@;
        let idx = match pts {
            Some(t) => self.idx(t),
            None => i,
        };
        self.out_hi = match self.out_hi {
            Some(h) => Some(if h < idx {
                idx
            } else {
                h
            }),
            None => Some(idx),
        };
        if self.queue.len() >= MAX_BUFFERS {
            let ghost all = self.queue@;
            let gone = self.queue.pop_front();
            assert(buffers(self.queue@) =~= before.queue.drop_first());
        }
        let ghost held = buffers(self.queue@);
        self.queue.push_back((idx, data));
        assert(buffers(self.queue@) =~= held.push((idx, data@)));
    }

    /// Whether output for frame `i` is still to come.
    pub fn waits_for(&self, i: u64) -> (r: bool)
        ensures
            r == self@.waits_for(i),
    {
        match self.out_hi {
            Some(h) => h < i,
            None => true,
        }
    }

    /// Ends frame `i`: returns its caption data, possibly none. A late buffer
    /// is handed out on a later frame instead.
    pub fn frame(&mut self, i: u64, timed_out: bool) -> (r: Vec<u8>)
        requires
            old(self)@.wf(),
        ensures
            (r@, final(self)@) == old(self)@.frame(i, timed_out),
            final(self)@.wf(),
    {
        let ghost before = self@;
        let n = self.fed.len();
        let mut fed: Vec<bool> = Vec::new();
        let mut k: usize = 0;
        while k < n
            invariant
                k <= n,
                fed@ == Seq::new(k as nat, |j: int| false),
            decreases n - k,
        {
            fed.push(false);
            assert(fed@ =~= Seq::new((k + 1) as nat, |j: int| false));
            k += 1;
        }
        self.fed = fed;
        assert(self.fed@ =~= Seq::new(before.fed.len(), |j: int| false));
        self.timeouts_in_row = if timed_out {
            count(self.timeouts_in_row, 1)
        } else {
            0
        };
        if self.queue.len() > 0 && self.queue[0].0 <= i {
            if let Some((idx, data)) = self.queue.pop_front() {
                assert(buffers(self.queue@) =~= before.queue.drop_first());
                assert(before.queue[0] == (idx, data@));
                return data;
            }
        }
        let none: Vec<u8> = Vec::new();
        assert(none@ =~= seq![]);
        none
    }
}

/// Frames are found again by their times: the time of a frame is nearest to
/// that frame, at any frame rate the grid of nanoseconds can tell apart.
pub proof fn law_frames_are_found_by_their_times(f: Frames, i: u64)
    requires
        f.wf(),
        1_000_000_000 * i * f.fps.1 <= u64::MAX,
        2 * f.fps.0 <= 1_000_000_000 * f.fps.1,
    ensures
        f.pts(i) == (1_000_000_000 * i * f.fps.1) / f.fps.0 as int,
        f.idx(f.pts(i) as u64) == i,
{
    let n = f.fps.0 as int;
    let d = f.fps.1 as int;
    let total = SECOND_NS * i * d;
    let den = SECOND_NS * d;
    assert(SECOND_NS * i <= SECOND_NS * i * d) by (nonlinear_arith)
        requires
            d >= 1,
            SECOND_NS * i >= 0,
    ;
    let p = total / n;
    assert(f.pts(i) == p);
    let left = total - p * n;
    assert(0 <= left < n && p >= 0 && p <= total) by (nonlinear_arith)
        requires
            p == total / n,
            left == total - p * n,
            n > 0,
            total >= 0,
    ;
    assert(total == i * den) by (nonlinear_arith)
        requires
            total == SECOND_NS * i * d,
            den == SECOND_NS * d,
    ;
    let num = p * n + den / 2;
    assert(num == i * den - left + den / 2);
    assert(num / den == i as int) by (nonlinear_arith)
        requires
            num == i * den - left + den / 2,
            0 <= left,
            left <= den / 2,
            den > 0,
    ;
}

/// Memory stays bounded, and a frame never gets data of a later frame.
pub proof fn law_data_is_never_early(f: Frames, idx: u64, data: Seq<u8>, i: u64, timed_out: bool)
    requires
        f.wf(),
    ensures
        f.take(idx, data).queue.len() <= 256,
        f.frame(i, timed_out).0.len() > 0 ==> f.queue[0].0 <= i,
{
}

} // verus!
