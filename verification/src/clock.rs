//! Maps a recogniser's sample count back to the incoming audio timeline.
//!
//! Each audio frame carries its start time. The recogniser only sees a
//! continuous sample stream, so an anchor (sample index, milliseconds) is kept
//! wherever the timeline jumps, and times are mapped through the latest anchor
//! at or before them.
use std::collections::VecDeque;
use vstd::prelude::*;

verus! {

/// 16 kHz audio.
pub const SAMPLES_PER_MS: u64 = 16;

/// Anchors kept; words commit within seconds, so old ones are never needed.
pub const MAX_ANCHORS: usize = 1024;

/// Where samples lie on the timeline.
pub struct Clock {
    anchors: VecDeque<(u64, u64)>,
    fed: u64,
}

/// What the clock knows: its anchors, and the number of samples fed so far.
#[verifier::ext_equal]
pub struct Timeline {
    pub anchors: Seq<(u64, u64)>,
    pub fed: u64,
}

/// The latest anchor at or before a sample.
pub open spec fn latest(anchors: Seq<(u64, u64)>, sample: u64) -> Option<(u64, u64)>
    decreases anchors.len(),
{
    if anchors.len() == 0 {
        None
    } else if anchors.last().0 <= sample {
        Some(anchors.last())
    } else {
        latest(anchors.drop_last(), sample)
    }
}

/// The last entries of a list.
pub open spec fn last_entries<T>(s: Seq<T>, count: nat) -> Seq<T> {
    if s.len() > count {
        s.skip(s.len() - count)
    } else {
        s
    }
}

impl Timeline {
    /// A frame that starts at the time goes on where the samples fed so far end.
    pub open spec fn contiguous(self, start_ms: u64) -> bool {
        self.anchors.len() > 0 && {
            let (idx, ms) = self.anchors.last();
            let end = ms + (self.fed - idx) / SAMPLES_PER_MS as int;
            start_ms == if end > u64::MAX {
                u64::MAX as int
            } else {
                end
            }
        }
    }

    /// The timeline behind a frame.
    pub open spec fn fed_frame(self, start_ms: u64, len: nat) -> Timeline {
        Timeline {
            anchors: if self.contiguous(start_ms) {
                self.anchors
            } else {
                last_entries(self.anchors.push((self.fed, start_ms)), MAX_ANCHORS as nat)
            },
            fed: (self.fed + len) as u64,
        }
    }

    /// The time of a sample in milliseconds.
    pub open spec fn time_of(self, sample: u64) -> int {
        match latest(self.anchors, sample) {
            Some((idx, ms)) => ms + (sample - idx) / SAMPLES_PER_MS as int,
            None => if self.anchors.len() == 0 {
                sample as int / SAMPLES_PER_MS as int
            } else {
                let (idx, ms) = self.anchors[0];
                let back = (idx - sample) / SAMPLES_PER_MS as int;
                if ms < back {
                    0
                } else {
                    ms - back
                }
            },
        }
    }

    /// Anchors lie in the order of their samples, none beyond the samples fed.
    pub open spec fn ordered(self) -> bool {
        &&& self.anchors.len() <= MAX_ANCHORS
        &&& forall|i: int, j: int|
            0 <= i <= j < self.anchors.len() ==> self.anchors[i].0 <= self.anchors[j].0
        &&& forall|i: int| 0 <= i < self.anchors.len() ==> (#[trigger] self.anchors[i]).0 <= self.fed
    }
}

impl View for Clock {
    type V = Timeline;

    closed spec fn view(&self) -> Timeline {
        Timeline { anchors: self.anchors@, fed: self.fed }
    }
}

impl Default for Clock {
    fn default() -> (r: Self)
        ensures
            r@ == (Timeline { anchors: seq![], fed: 0 }),
            r@.ordered(),
    {
        let r = Clock { anchors: VecDeque::new(), fed: 0 };
        assert(r.anchors@ =~= seq![]);
        r
    }
}

impl Clock {
    /// The number of anchors kept.
    pub fn anchor_count(&self) -> (r: usize)
        ensures
            r == self@.anchors.len(),
    {
        self.anchors.len()
    }

    /// Records an audio frame of `len` samples starting at `start_ms`.
    pub fn frame(&mut self, start_ms: u64, len: usize)
        requires
            old(self)@.ordered(),
            old(self)@.fed + len <= u64::MAX,
        ensures
            final(self)@ == old(self)@.fed_frame(start_ms, len as nat),
            final(self)@.ordered(),
    {
        let n = self.anchors.len();
        let mut contiguous = false;
        if n > 0 {
            let (idx, ms): (u64, u64) = self.anchors[n - 1];
            assert(idx == self@.anchors[n - 1].0);
            let run: u64 = (self.fed - idx) / SAMPLES_PER_MS;
            let end: u64 = if run > u64::MAX - ms {
                u64::MAX
            } else {
                ms + run
            };
            contiguous = end == start_ms;
        }
        if !contiguous {
            self.anchors.push_back((self.fed, start_ms));
            if self.anchors.len() > MAX_ANCHORS {
                let ghost all = self.anchors@;
                let first = self.anchors.pop_front();
                assert(self.anchors@ =~= all.skip(1));
            }
        }
        self.fed = self.fed + len as u64;
    }

    /// The time in milliseconds of a sample, counted from the first one fed, if
    /// it fits in 64 bits.
    pub fn at_checked(&self, sample: u64) -> (r: Option<u64>)
        requires
            self@.ordered(),
        ensures
            match r {
                Some(t) => t == self@.time_of(sample),
                None => self@.time_of(sample) > u64::MAX,
            },
    {
        let mut i: usize = self.anchors.len();
        assert(self@.anchors.take(i as int) =~= self@.anchors);
        while i > 0
            invariant
                i <= self@.anchors.len(),
                self@.anchors == self.anchors@,
                latest(self@.anchors, sample) == latest(self@.anchors.take(i as int), sample),
            decreases i,
        {
            let (idx, ms): (u64, u64) = self.anchors[i - 1];
            assert(self@.anchors.take(i as int).drop_last() =~= self@.anchors.take(i - 1));
            assert(self@.anchors.take(i as int).last() == (idx, ms));
            if idx <= sample {
                let run: u64 = (sample - idx) / SAMPLES_PER_MS;
                if run > u64::MAX - ms {
                    return None;
                }
                return Some(ms + run);
            }
            i -= 1;
        }
        if self.anchors.len() == 0 {
            return Some(sample / SAMPLES_PER_MS);
        }
        let (idx, ms): (u64, u64) = self.anchors[0];
        proof {
            if idx <= sample {
                lemma_latest_exists(self@.anchors, sample);
            }
        }
        let back: u64 = (idx - sample) / SAMPLES_PER_MS;
        if ms < back {
            Some(0)
        } else {
            Some(ms - back)
        }
    }

    /// The time in milliseconds of a sample, counted from the first one fed.
    pub fn at(&self, sample: u64) -> (r: u64)
        requires
            self@.ordered(),
            self@.time_of(sample) <= u64::MAX,
        ensures
            r == self@.time_of(sample),
    {
        match self.at_checked(sample) {
            Some(t) => t,
            None => 0,
        }
    }
}

proof fn lemma_latest_exists(anchors: Seq<(u64, u64)>, sample: u64)
    requires
        anchors.len() > 0,
        anchors[0].0 <= sample,
    ensures
        latest(anchors, sample) is Some,
    decreases anchors.len(),
{
    if anchors.last().0 > sample {
        lemma_latest_exists(anchors.drop_last(), sample);
    }
}

proof fn lemma_latest_skips(anchors: Seq<(u64, u64)>, sample: u64)
    requires
        anchors.len() > 1,
        latest(anchors.skip(1), sample) is Some,
    ensures
        latest(anchors, sample) == latest(anchors.skip(1), sample),
    decreases anchors.len(),
{
    let tail = anchors.skip(1);
    assert(tail.last() == anchors.last());
    if anchors.last().0 > sample {
        assert(tail.drop_last() =~= anchors.drop_last().skip(1));
        assert(latest(tail, sample) == latest(tail.drop_last(), sample));
        assert(tail.drop_last().len() > 0);
        lemma_latest_skips(anchors.drop_last(), sample);
    }
}

/// A frame's samples lie where the frame says, to the millisecond: the time
/// counted from its start may be rounded once more through an older anchor.
pub proof fn law_frames_lie_on_the_timeline(t: Timeline, start_ms: u64, len: nat, k: u64)
    requires
        t.ordered(),
        t.fed + len <= u64::MAX,
        k < len,
        start_ms < u64::MAX,
    ensures
        ({
            let time = t.fed_frame(start_ms, len).time_of((t.fed + k) as u64);
            let exact = start_ms + k as int / 16;
            exact <= time <= exact + 1
        }),
{
    let sample = (t.fed + k) as u64;
    let after = t.fed_frame(start_ms, len).anchors;
    if !t.contiguous(start_ms) {
        assert(after.last() == (t.fed, start_ms));
    } else {
        assert(t.anchors[t.anchors.len() - 1].0 <= t.fed);
    }
}

/// What was fed before keeps its time when a frame follows, unless its anchor
/// is the oldest and too many are kept.
pub proof fn law_earlier_samples_keep_their_time(t: Timeline, start_ms: u64, len: nat, sample: u64)
    requires
        t.ordered(),
        t.fed + len <= u64::MAX,
        t.anchors.len() > 0,
        t.anchors.len() < 1024 || t.anchors[1].0 <= sample,
        sample < t.fed,
    ensures
        t.fed_frame(start_ms, len).time_of(sample) == t.time_of(sample),
{
    if !t.contiguous(start_ms) {
        let more = t.anchors.push((t.fed, start_ms));
        assert(more.drop_last() =~= t.anchors);
        assert(more[0] == t.anchors[0]);
        if more.len() > MAX_ANCHORS {
            assert(more.skip(1)[0] == t.anchors[1]);
            lemma_latest_exists(more.skip(1), sample);
            lemma_latest_skips(more, sample);
        }
    }
}

} // verus!
