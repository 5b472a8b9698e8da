//! A worker's heartbeat: when to send one, and when to withhold it.
//!
//! Workers send a heartbeat every [`HEARTBEAT_INTERVAL_MS`], so a long model
//! load or decode does not look like a hang. If a piece of work marked as busy
//! runs longer than the stall limit, heartbeats stop, and the supervisor
//! restarts the worker. Times are milliseconds on any clock that does not go
//! back.
use std::collections::BTreeMap;
use vstd::prelude::*;

verus! {

/// Time from one heartbeat to the next.
pub const HEARTBEAT_INTERVAL_MS: u64 = 500;

/// The mark of a piece of work in progress.
#[derive(Clone, Copy, Debug, PartialEq, Eq, Structural)]
pub struct Busy {
    pub id: u64,
}

/// Heartbeat state shared by the worker's threads.
pub struct Heartbeat {
    stop: bool,
    paused: bool,
    next_id: u64,
    /// When the work of each mark began.
    busy: BTreeMap<u64, u64>,
}

/// What the heartbeat state holds.
#[verifier::ext_equal]
pub struct Beat {
    pub stop: bool,
    pub paused: bool,
    pub next_id: u64,
    pub busy: Map<u64, u64>,
}

impl Beat {
    /// A new worker's state: nothing in progress.
    pub open spec fn idle() -> Beat {
        Beat { stop: false, paused: false, next_id: 0, busy: Map::empty() }
    }

    /// Some work has been in progress for longer than the limit.
    pub open spec fn stalled(self, limit_ms: u64, now_ms: u64) -> bool {
        exists|id: u64| #[trigger]
            self.busy.contains_key(id) && now_ms - self.busy[id] > limit_ms
    }

    /// The mark that comes after this one.
    pub open spec fn mark_after(id: u64) -> u64 {
        if id == u64::MAX {
            0
        } else {
            (id + 1) as u64
        }
    }
}

impl View for Heartbeat {
    type V = Beat;

    closed spec fn view(&self) -> Beat {
        Beat {
            stop: self.stop,
            paused: self.paused,
            next_id: self.next_id,
            busy: self.busy@,
        }
    }
}

impl Default for Heartbeat {
    fn default() -> (r: Self)
        ensures
            r@ == Beat::idle(),
    {
        Heartbeat { stop: false, paused: false, next_id: 0, busy: BTreeMap::new() }
    }
}

impl Heartbeat {
    /// Marks the start of work that must finish within the stall limit, and
    /// returns the mark.
    pub fn busy(&mut self, now_ms: u64) -> (r: Busy)
        ensures
            r.id == old(self)@.next_id,
            final(self)@ == (Beat {
                next_id: Beat::mark_after(r.id),
                busy: old(self)@.busy.insert(r.id, now_ms),
                ..old(self)@
            }),
    {
        let id = self.next_id;
        self.busy.insert(id, now_ms);
        self.next_id = if id == u64::MAX {
            0
        } else {
            id + 1
        };
        Busy { id }
    }

    /// Ends a mark.
    pub fn done(&mut self, mark: Busy)
        ensures
            final(self)@ == (Beat { busy: old(self)@.busy.remove(mark.id), ..old(self)@ }),
    {
        self.busy.remove(&mark.id);
    }

    /// Stops heartbeats without ending the thread (used to simulate a hang).
    pub fn pause(&mut self)
        ensures
            final(self)@ == (Beat { paused: true, ..old(self)@ }),
    {
        self.paused = true;
    }

    /// Ends the heartbeat thread within one tick.
    pub fn stop(&mut self)
        ensures
            final(self)@ == (Beat { stop: true, ..old(self)@ }),
    {
        self.stop = true;
    }

    /// Whether some work has been in progress for longer than the limit.
    pub fn stalled(&self, limit_ms: u64, now_ms: u64) -> (r: bool)
        ensures
            r == self@.stalled(limit_ms, now_ms),
    {
        let mut late = false;
        for since in it: self.busy.values()
            invariant
                it.seq().unref().to_set() == self.busy@.values(),
                forall|v: u64| #[trigger]
                    self.busy@.values().contains(v) ==> exists|k: int|
                        0 <= k < it.seq().len() && *(#[trigger] it.seq()[k]) == v,
                late ==> self@.stalled(limit_ms, now_ms),
                !late ==> forall|k: int|
                    0 <= k < it.index() ==> now_ms - *(#[trigger] it.seq()[k]) <= limit_ms,
        {
            if now_ms > *since && now_ms - *since > limit_ms {
                proof {
                    let all = it.seq().unref();
                    assert(all[it.index()] == *since);
                    assert(all.to_set().contains(*since));
                    let id = choose|id: u64| #[trigger]
                        self.busy@.contains_key(id) && self.busy@[id] == *since;
                    assert(self@.busy.contains_key(id));
                }
                late = true;
            }
        }
        proof {
            if !late {
                assert forall|id: u64| #[trigger] self@.busy.contains_key(id) implies now_ms
                    - self@.busy[id] <= limit_ms by {
                    assert(self.busy@.values().contains(self.busy@[id]));
                }
            }
        }
        late
    }
}

/// What the heartbeat thread does next.
#[derive(Clone, Copy, Debug, PartialEq, Eq, Structural)]
pub enum Tick {
    /// End the thread.
    Stop,
    /// Send the heartbeat with this number; sleep, or end the thread if the
    /// parent is gone.
    Send(u64),
    /// Say that the worker is stalled; look again at once.
    Warn,
    /// No heartbeat is owed or it is withheld; look again at once.
    Skip,
    /// Nothing is due yet; sleep.
    Sleep,
}

/// The heartbeat thread's own state.
#[derive(Clone, Copy, Debug, PartialEq, Eq)]
pub struct Ticker {
    /// The number of the next heartbeat.
    pub seq: u64,
    /// When it is due.
    pub next_ms: u64,
    /// The stall has been reported.
    pub warned: bool,
}

impl Ticker {
    /// The step that is due, and the state behind it.
    pub open spec fn due(self, beat: Beat, limit_ms: u64, now_ms: u64) -> (Tick, Ticker) {
        let later = Ticker { next_ms: (self.next_ms + HEARTBEAT_INTERVAL_MS) as u64, ..self };
        if beat.stop {
            (Tick::Stop, self)
        } else if now_ms < self.next_ms {
            (Tick::Sleep, self)
        } else if beat.paused {
            (Tick::Skip, later)
        } else if beat.stalled(limit_ms, now_ms) {
            (
                if self.warned {
                    Tick::Skip
                } else {
                    Tick::Warn
                },
                Ticker { warned: true, ..later },
            )
        } else {
            (
                Tick::Send(self.seq),
                Ticker { seq: (self.seq + 1) as u64, warned: false, ..later },
            )
        }
    }

    /// Starts the thread: the first heartbeat is due at once.
    pub fn new(now_ms: u64) -> (r: Ticker)
        ensures
            r == (Ticker { seq: 0, next_ms: now_ms, warned: false }),
    {
        Ticker { seq: 0, next_ms: now_ms, warned: false }
    }

    /// Decides what the heartbeat thread does now.
    pub fn tick(&mut self, beat: &Heartbeat, limit_ms: u64, now_ms: u64) -> (r: Tick)
        requires
            old(self).seq < u64::MAX,
            old(self).next_ms + HEARTBEAT_INTERVAL_MS <= u64::MAX,
        ensures
            (r, *final(self)) == old(self).due(beat@, limit_ms, now_ms),
    {
        if beat.stop {
            return Tick::Stop;
        }
        if now_ms < self.next_ms {
            return Tick::Sleep;
        }
        self.next_ms = self.next_ms + HEARTBEAT_INTERVAL_MS;
        if beat.paused {
            return Tick::Skip;
        }
        if beat.stalled(limit_ms, now_ms) {
            if self.warned {
                return Tick::Skip;
            }
            self.warned = true;
            return Tick::Warn;
        }
        self.warned = false;
        let seq = self.seq;
        self.seq = seq + 1;
        Tick::Send(seq)
    }
}

/// A worker with work older than the limit sends no heartbeat, and one with no
/// work in progress is never stalled.
pub proof fn law_stalled_work_withholds_heartbeats(t: Ticker, beat: Beat, limit_ms: u64, now_ms: u64)
    ensures
        beat.stalled(limit_ms, now_ms) ==> !(t.due(beat, limit_ms, now_ms).0 is Send),
        beat.busy == Map::<u64, u64>::empty() ==> !beat.stalled(limit_ms, now_ms),
{
}

} // verus!
