//! Maps the timestamps of a reconnecting input onto one continuous output
//! timeline (90 kHz).
//!
//! Each run of input timestamps without a jump is an *epoch*. A new epoch
//! (reconnect, or the source restarting with PTS from 0) continues the output
//! timeline after the last packet sent, advanced by the wall time the input was
//! silent, so output PTS/PCR keep pace with real time across gaps.
use vstd::prelude::*;

use crate::counter::{count, counted};

verus! {

/// Forward margin added at an epoch change so streams whose first packet
/// starts slightly earlier than the one that opened the epoch stay monotonic.
pub const EPOCH_MARGIN_90K: i64 = 45_000;

/// The furthest a timestamp may go back or ahead within an epoch: 1 s and 10 s.
pub const MAX_BACK_90K: i64 = 90_000;

pub const MAX_AHEAD_90K: i64 = 900_000;

/// Input time over which the anchor is measured.
pub const WINDOW_90K: i64 = 180_000;

/// Wall clock in 90 kHz ticks.
pub fn wall_90k(ns: u64) -> (r: i64)
    ensures
        r == ns / 100_000 * 9,
{
    (ns / 100_000 * 9) as i64
}

/// The state of the timeline.
#[verifier::ext_equal]
pub struct Timeline {
    /// End (dts + duration) of the latest packet sent, on the output timeline.
    pub out_end: Option<int>,
    /// Added to input dts in the current epoch.
    pub delta: Option<int>,
    /// The last input dts of each stream.
    pub last_in: Seq<Option<i64>>,
    /// The least wall time minus dts in this window, and in the one before.
    pub anchor: Option<int>,
    pub anchor_prev: Option<int>,
    pub window_start: i64,
    /// Largest input dts seen in the epoch.
    pub in_max: i64,
    pub epochs: u64,
}

/// The lesser of two values, of which either may be missing.
pub open spec fn lesser(a: Option<int>, b: Option<int>) -> Option<int> {
    match (a, b) {
        (Some(x), Some(y)) => Some(
            if x < y {
                x
            } else {
                y
            },
        ),
        (Some(x), None) => Some(x),
        (None, y) => y,
    }
}

impl Timeline {
    /// The timestamp jumps too far back or ahead to belong to the epoch.
    pub open spec fn jumps(self, stream: int, dts: i64) -> bool {
        &&& self.delta is Some
        &&& 0 <= stream < self.last_in.len()
        &&& self.last_in[stream] matches Some(prev) && !(-MAX_BACK_90K <= dts - prev
            <= MAX_AHEAD_90K)
    }

    /// The epoch is over: the next packet opens another.
    pub open spec fn closed(self) -> Timeline {
        Timeline {
            delta: None,
            last_in: Seq::new(self.last_in.len(), |i: int| None),
            ..self
        }
    }

    /// How long the input was silent: the wall time since the last packet of the
    /// old epoch was due.
    pub open spec fn silence(self, wall: i64, anchor: int) -> int {
        let gap = wall - (self.in_max + anchor);
        if gap > 0 {
            gap
        } else {
            0
        }
    }

    /// What is added to the timestamps of an epoch that opens with `dts`: nothing
    /// in the first, later what continues the output after the silence.
    pub open spec fn opening_delta(self, dts: i64, wall: i64) -> int {
        match (self.out_end, lesser(self.anchor, self.anchor_prev)) {
            (Some(end), Some(anchor)) => end + self.silence(wall, anchor) + EPOCH_MARGIN_90K - dts,
            _ => 0,
        }
    }

    /// A new epoch has begun with `dts`, unless one is running.
    pub open spec fn opened(self, dts: i64, wall: i64) -> Timeline {
        if self.delta is Some {
            self
        } else {
            Timeline {
                delta: Some(self.opening_delta(dts, wall)),
                anchor: None,
                anchor_prev: None,
                window_start: dts,
                in_max: dts,
                epochs: counted(self.epochs, 1),
                ..self
            }
        }
    }

    /// A packet of the running epoch was seen.
    pub open spec fn noted(self, stream: int, dts: i64, wall: i64) -> Timeline {
        let turned = dts - self.window_start > WINDOW_90K;
        Timeline {
            last_in: if 0 <= stream < self.last_in.len() {
                self.last_in.update(stream, Some(dts))
            } else {
                self.last_in
            },
            in_max: if dts > self.in_max {
                dts
            } else {
                self.in_max
            },
            anchor_prev: if turned {
                self.anchor
            } else {
                self.anchor_prev
            },
            window_start: if turned {
                dts
            } else {
                self.window_start
            },
            anchor: lesser(
                Some(wall - dts),
                if turned {
                    None
                } else {
                    self.anchor
                },
            ),
            ..self
        }
    }

    /// The epoch that a packet falls into is open.
    pub open spec fn ready(self, stream: int, dts: i64, wall: i64) -> Timeline {
        (if self.jumps(stream, dts) {
            self.closed()
        } else {
            self
        }).opened(dts, wall)
    }

    /// The delta of a packet.
    pub open spec fn delta_of(self, stream: int, dts: i64, wall: i64) -> int {
        self.ready(stream, dts, wall).delta->0
    }
}

/// Maps input timestamps onto the output timeline.
pub struct Rebase {
    out_end: Option<i128>,
    delta: Option<i64>,
    last_in: Vec<Option<i64>>,
    anchor: Option<i128>,
    anchor_prev: Option<i128>,
    window_start: i64,
    in_max: i64,
    epochs: u64,
}

impl View for Rebase {
    type V = Timeline;

    closed spec fn view(&self) -> Timeline {
        Timeline {
            out_end: match self.out_end {
                Some(x) => Some(x as int),
                None => None,
            },
            delta: match self.delta {
                Some(x) => Some(x as int),
                None => None,
            },
            last_in: self.last_in@,
            anchor: match self.anchor {
                Some(x) => Some(x as int),
                None => None,
            },
            anchor_prev: match self.anchor_prev {
                Some(x) => Some(x as int),
                None => None,
            },
            window_start: self.window_start,
            in_max: self.in_max,
            epochs: self.epochs,
        }
    }
}

/// Both ends of a sum of two 64-bit values.
pub open spec fn two_terms(x: int) -> bool {
    -0x1_0000_0000_0000_0000 <= x <= 0x1_0000_0000_0000_0000
}

fn least(a: Option<i128>, b: Option<i128>) -> (r: Option<i128>)
    ensures
        r is Some == (a is Some || b is Some),
        ({
            let x = match a {
                Some(v) => Some(v as int),
                None => None,
            };
            let y = match b {
                Some(v) => Some(v as int),
                None => None,
            };
            r matches Some(v) ==> Some(v as int) == lesser(x, y)
        }),
        r is None ==> a is None && b is None,
{
    match (a, b) {
        (Some(x), Some(y)) => if x < y {
            Some(x)
        } else {
            Some(y)
        },
        (Some(x), None) => Some(x),
        (None, y) => y,
    }
}

impl Rebase {
    /// The sums kept are sums of two 64-bit values.
    pub closed spec fn wf(self) -> bool {
        &&& self.out_end matches Some(x) ==> two_terms(x as int)
        &&& self.anchor matches Some(x) ==> two_terms(x as int)
        &&& self.anchor_prev matches Some(x) ==> two_terms(x as int)
    }

    pub fn new() -> (r: Self)
        ensures
            r.wf(),
            r@ == (Timeline {
                out_end: None,
                delta: None,
                last_in: seq![],
                anchor: None,
                anchor_prev: None,
                window_start: 0,
                in_max: 0,
                epochs: 0,
            }),
    {
        let r = Rebase {
            out_end: None,
            delta: None,
            last_in: Vec::new(),
            anchor: None,
            anchor_prev: None,
            window_start: 0,
            in_max: 0,
            epochs: 0,
        };
        assert(r@.last_in =~= seq![]);
        r
    }

    /// A new connection with this many streams: the next packet opens an epoch.
    pub fn new_session(&mut self, streams: usize)
        requires
            old(self).wf(),
        ensures
            final(self).wf(),
            final(self)@ == (Timeline {
                delta: None,
                last_in: Seq::new(streams as nat, |i: int| None),
                ..old(self)@
            }),
    {
        self.delta = None;
        self.last_in = no_times(streams);
    }

    /// The delta that this packet would get, if it fits in 64 bits.
    pub fn delta_fitting(&self, stream: usize, dts: i64, wall: i64) -> (r: Option<i64>)
        requires
            self.wf(),
        ensures
            match r {
                Some(d) => d == self@.delta_of(stream as int, dts, wall),
                None => !(i64::MIN <= self@.delta_of(stream as int, dts, wall) <= i64::MAX),
            },
    {
        let mut running: Option<i64> = self.delta;
        if stream < self.last_in.len() && self.delta.is_some() {
            if let Some(prev) = self.last_in[stream] {
                let jump: i128 = dts as i128 - prev as i128;
                if jump < -(MAX_BACK_90K as i128) || jump > MAX_AHEAD_90K as i128 {
                    assert(self@.jumps(stream as int, dts));
                    running = None;
                }
            }
        }
        if let Some(d) = running {
            return Some(d);
        }
        let anchor = least(self.anchor, self.anchor_prev);
        let d: i128 = match (self.out_end, anchor) {
            (Some(end), Some(anchor)) => {
                let gap: i128 = wall as i128 - (self.in_max as i128 + anchor);
                let silent: i128 = if gap > 0 { gap } else { 0 };
                end + silent + EPOCH_MARGIN_90K as i128 - dts as i128
            },
            _ => 0,
        };
        assert(d == self@.opening_delta(dts, wall));
        if i64::MIN as i128 <= d && d <= i64::MAX as i128 {
            Some(d as i64)
        } else {
            None
        }
    }

    /// Returns the delta to apply to this packet's input dts (90 kHz).
    pub fn delta_for(&mut self, stream: usize, dts: i64, wall: i64) -> (r: i64)
        requires
            old(self).wf(),
            i64::MIN <= old(self)@.delta_of(stream as int, dts, wall) <= i64::MAX,
        ensures
            final(self).wf(),
            r == old(self)@.delta_of(stream as int, dts, wall),
            final(self)@ == old(self)@.ready(stream as int, dts, wall).noted(
                stream as int,
                dts,
                wall,
            ),
    {
        let ghost before = self@;
        if stream < self.last_in.len() && self.delta.is_some() {
            if let Some(prev) = self.last_in[stream] {
                let jump: i128 = dts as i128 - prev as i128;
                if jump < -(MAX_BACK_90K as i128) || jump > MAX_AHEAD_90K as i128 {
                    assert(before.jumps(stream as int, dts));
                    self.delta = None;
                    self.last_in = no_times(self.last_in.len());
                    assert(self@ =~= before.closed());
                }
            }
        }
        let ghost here = self@;
        let delta: i64 = match self.delta {
            Some(d) => d,
            None => {
                let anchor = least(self.anchor, self.anchor_prev);
                let d: i128 = match (self.out_end, anchor) {
                    (Some(end), Some(anchor)) => {
                        // Wall time elapsed since the old epoch's last packet was due.
                        let gap: i128 = wall as i128 - (self.in_max as i128 + anchor);
                        let silent: i128 = if gap > 0 { gap } else { 0 };
                        end + silent + EPOCH_MARGIN_90K as i128 - dts as i128
                    },
                    // First ever packet: keep input timestamps unchanged.
                    _ => 0,
                };
                assert(d == here.opening_delta(dts, wall));
                let d: i64 = d as i64;
                self.epochs = count(self.epochs, 1);
                self.delta = Some(d);
                self.anchor = None;
                self.anchor_prev = None;
                self.window_start = dts;
                self.in_max = dts;
                d
            },
        };
        assert(self@ =~= before.ready(stream as int, dts, wall));
        let ghost open = self@;
        if stream < self.last_in.len() {
            self.last_in.set(stream, Some(dts));
        }
        if dts > self.in_max {
            self.in_max = dts;
        }
        if dts as i128 - self.window_start as i128 > WINDOW_90K as i128 {
            self.anchor_prev = self.anchor;
            self.anchor = None;
            self.window_start = dts;
        }
        self.anchor = least(Some(wall as i128 - dts as i128), self.anchor);
        assert(self@ =~= open.noted(stream as int, dts, wall));
        delta
    }

    /// A packet was sent at `out_dts` for `dur`.
    pub fn sent(&mut self, out_dts: i64, dur: i64)
        requires
            old(self).wf(),
        ensures
            final(self).wf(),
            ({
                let end = out_dts + (if dur > 0 {
                    dur as int
                } else {
                    0
                });
                final(self)@ == (Timeline {
                    out_end: match old(self)@.out_end {
                        Some(e) => Some(
                            if e > end {
                                e
                            } else {
                                end
                            },
                        ),
                        None => Some(end),
                    },
                    ..old(self)@
                })
            }),
    {
        let end: i128 = out_dts as i128 + (if dur > 0 {
            dur as i128
        } else {
            0
        });
        self.out_end = match self.out_end {
            Some(e) => if e > end {
                Some(e)
            } else {
                Some(end)
            },
            None => Some(end),
        };
    }
}

fn no_times(n: usize) -> (r: Vec<Option<i64>>)
    ensures
        r@ == Seq::new(n as nat, |i: int| None::<i64>),
{
    let mut r: Vec<Option<i64>> = Vec::new();
    while r.len() < n
        invariant
            r@.len() <= n,
            forall|i: int| 0 <= i < r@.len() ==> #[trigger] r@[i] is None,
        decreases n - r@.len(),
    {
        r.push(None);
    }
    assert(r@ =~= Seq::new(n as nat, |i: int| None::<i64>));
    r
}

/// A new epoch never goes back on the output timeline: its first packet comes at
/// least the margin after everything sent before, and later by the time the input
/// was silent.
pub proof fn law_epochs_move_forward(t: Timeline, stream: int, dts: i64, wall: i64)
    requires
        t.out_end is Some,
        lesser(t.anchor, t.anchor_prev) is Some,
        t.delta is None || t.jumps(stream, dts),
    ensures
        dts + t.delta_of(stream, dts, wall) >= t.out_end->0 + 45_000,
        dts + t.delta_of(stream, dts, wall) == t.out_end->0 + 45_000 + t.silence(
            wall,
            lesser(t.anchor, t.anchor_prev)->0,
        ),
{
}

/// Within an epoch all packets move by the same delta.
pub proof fn law_one_delta_per_epoch(t: Timeline, stream: int, dts: i64, wall: i64)
    requires
        t.delta is Some,
        !t.jumps(stream, dts),
    ensures
        t.delta_of(stream, dts, wall) == t.delta->0,
        t.ready(stream, dts, wall).noted(stream, dts, wall).delta == t.delta,
{
}

} // verus!
