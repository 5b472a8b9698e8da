//! Keeping a worker process alive: what is sent to it, when it counts as hung,
//! and when it is started again.
//!
//! - Sending never blocks: frames go into a bounded queue that drops its oldest
//!   frame when full.
//! - A worker that exits, sends no frame for the heartbeat timeout, or breaks
//!   the framing is killed and restarted with exponential backoff, reset once a
//!   worker was ready for long enough.
//! - Nothing is written to a new worker until it says that it is ready.
//!
//! Times are milliseconds.
use std::collections::VecDeque;
use vstd::prelude::*;

use crate::backoff::{lemma_powers_grow, power_of_two};
use crate::chars::texts;
use crate::counter::{count, counted, law_counts_add_up};
use crate::decimal::{decimal, push_decimal, push_text};
use crate::words::text_of;

verus! {

/// What to run.
#[derive(Clone, Debug, PartialEq, Eq)]
pub struct WorkerSpec {
    /// Short name for logs and status, e.g. `asr`.
    pub name: String,
    pub program: String,
    pub args: Vec<String>,
    /// Extra environment variables for the worker.
    pub env: Vec<(String, String)>,
}

/// Environment variables and their values.
pub open spec fn variables(env: Seq<(String, String)>) -> Seq<(Seq<char>, Seq<char>)> {
    env.map_values(|e: (String, String)| (e.0@, e.1@))
}

impl WorkerSpec {
    /// A program without arguments.
    pub fn new(name: &str, program: &str) -> (r: Self)
        ensures
            r.name@ == name@,
            r.program@ == program@,
            r.args@.len() == 0,
            r.env@.len() == 0,
    {
        WorkerSpec {
            name: name.to_owned(),
            program: program.to_owned(),
            args: Vec::new(),
            env: Vec::new(),
        }
    }

    /// One more argument.
    pub fn arg(self, arg: &str) -> (r: Self)
        ensures
            r.name == self.name,
            r.program == self.program,
            r.env == self.env,
            texts(r.args@) == texts(self.args@).push(arg@),
    {
        let mut s = self;
        let ghost before = texts(s.args@);
        s.args.push(arg.to_owned());
        assert(texts(s.args@) =~= before.push(arg@));
        s
    }

    /// More arguments.
    pub fn args(self, args: &[String]) -> (r: Self)
        ensures
            r.name == self.name,
            r.program == self.program,
            r.env == self.env,
            texts(r.args@) == texts(self.args@)
                + texts(args@),
    {
        let mut s = self;
        let ghost before = texts(s.args@);
        let ghost more = texts(args@);
        let mut i: usize = 0;
        assert(texts(s.args@) =~= before + more.take(0));
        while i < args.len()
            invariant
                i <= args@.len(),
                more == texts(args@),
                s.name == self.name,
                s.program == self.program,
                s.env == self.env,
                texts(s.args@) == before + more.take(i as int),
            decreases args.len() - i,
        {
            let ghost now = s.args@;
            let arg = args[i].clone();
            assert(arg@ == more[i as int]);
            s.args.push(arg);
            assert(texts(s.args@) =~= texts(now).push(arg@));
            assert(texts(s.args@) =~= before + more.take(i + 1));
            i += 1;
        }
        assert(more.take(more.len() as int) =~= more);
        s
    }

    /// One more environment variable.
    pub fn env(self, key: &str, value: &str) -> (r: Self)
        ensures
            r.name == self.name,
            r.program == self.program,
            r.args == self.args,
            variables(r.env@) == variables(self.env@).push((key@, value@)),
    {
        let mut s = self;
        let ghost before = variables(s.env@);
        s.env.push((key.to_owned(), value.to_owned()));
        assert(variables(s.env@) =~= before.push((key@, value@)));
        s
    }
}

/// Timing and queue limits.
#[derive(Clone, Copy, Debug, PartialEq, Eq)]
pub struct Policy {
    /// Frames waiting for the worker; the oldest is dropped beyond this.
    pub queue_capacity: usize,
    /// Output messages waiting for the caller; new ones are dropped beyond this.
    pub output_capacity: usize,
    /// A worker that sends no frame for this long is treated as hung.
    pub heartbeat_timeout: u64,
    /// A worker that is not ready this long after starting is restarted.
    pub ready_timeout: u64,
    pub backoff_initial: u64,
    pub backoff_max: u64,
    /// A worker ready at least this long resets the backoff.
    pub healthy_reset: u64,
    /// Time a worker gets to exit when asked before it is killed.
    pub shutdown_grace: u64,
}

impl Default for Policy {
    fn default() -> (r: Self)
        ensures
            r == (Policy {
                queue_capacity: 256,
                output_capacity: 1024,
                heartbeat_timeout: 3_000,
                ready_timeout: 120_000,
                backoff_initial: 500,
                backoff_max: 10_000,
                healthy_reset: 60_000,
                shutdown_grace: 2_000,
            }),
    {
        Policy {
            queue_capacity: 256,
            output_capacity: 1024,
            heartbeat_timeout: 3_000,
            ready_timeout: 120_000,
            backoff_initial: 500,
            backoff_max: 10_000,
            healthy_reset: 60_000,
            shutdown_grace: 2_000,
        }
    }
}

impl Policy {
    /// The delay before a restart: doubled for each failure before it, up to
    /// 31 times, and never above the cap.
    pub open spec fn delay(self, failures: u32) -> int {
        let times = if failures < 31 {
            failures as nat
        } else {
            31
        };
        let wait = self.backoff_initial * power_of_two(times);
        if wait < self.backoff_max {
            wait
        } else {
            self.backoff_max as int
        }
    }

    /// Delay before restart number `failures` (0-based) in a row.
    pub fn backoff(&self, failures: u32) -> (r: u64)
        ensures
            r == self.delay(failures),
    {
        let times: u32 = if failures < 31 {
            failures
        } else {
            31
        };
        let mut wait: u128 = self.backoff_initial as u128;
        let mut i: u32 = 0;
        proof {
            assert(self.backoff_initial * power_of_two(0) == self.backoff_initial)
                by (nonlinear_arith)
                requires
                    power_of_two(0) == 1,
            ;
        }
        while i < times
            invariant
                i <= times <= 31,
                wait == self.backoff_initial * power_of_two(i as nat),
                wait <= 0xFFFF_FFFF_FFFF_FFFF * 0x8000_0000,
            decreases times - i,
        {
            proof {
                let p = power_of_two(i as nat);
                assert(self.backoff_initial * (2 * p) == 2 * (self.backoff_initial * p))
                    by (nonlinear_arith);
                lemma_powers_grow(i as nat, 30);
                assert(power_of_two(30) == 0x4000_0000) by {
                    reveal_with_fuel(power_of_two, 31);
                }
                assert(self.backoff_initial * p <= 0xFFFF_FFFF_FFFF_FFFF * 0x4000_0000)
                    by (nonlinear_arith)
                    requires
                        0 <= self.backoff_initial <= 0xFFFF_FFFF_FFFF_FFFF,
                        0 <= p <= 0x4000_0000,
                ;
            }
            wait = 2 * wait;
            i += 1;
        }
        if wait < self.backoff_max as u128 {
            wait as u64
        } else {
            self.backoff_max
        }
    }
}

/// How a worker is doing.
#[derive(Clone, Copy, Debug, PartialEq, Eq, Structural)]
pub enum State {
    /// The worker process is running but has not said that it is ready.
    Starting,
    /// The worker is ready and receiving frames.
    Ready,
    /// The worker died or hung; waiting out the backoff before restarting.
    Restarting,
    /// The worker could not be started (e.g. missing binary); retried with
    /// backoff.
    Failed,
    /// Shut down on request.
    Stopped,
}

/// Frames waiting for a worker.
pub struct SendQueue<F> {
    frames: VecDeque<F>,
    closed: bool,
    stopping: bool,
    capacity: usize,
    dropped: u64,
}

/// What waits for a worker.
#[verifier::ext_equal]
pub struct Waiting<F> {
    pub frames: Seq<F>,
    /// No more frames are accepted, and none will follow.
    pub closed: bool,
    /// Shutdown has started: no more frames are accepted.
    pub stopping: bool,
    /// Frames kept at most, one at least.
    pub capacity: nat,
    /// Frames dropped because the queue was full.
    pub dropped: u64,
}

impl<F> Waiting<F> {
    pub open spec fn wf(self) -> bool {
        self.capacity >= 1 && self.capacity <= usize::MAX
    }

    /// Whether a frame was queued without dropping one, and the queue then.
    pub open spec fn send(self, frame: F) -> (bool, Waiting<F>) {
        if self.closed || self.stopping {
            (false, self)
        } else {
            let excess = self.frames.len() - self.capacity + 1;
            if excess <= 0 {
                (true, Waiting { frames: self.frames.push(frame), ..self })
            } else {
                (
                    false,
                    Waiting {
                        frames: self.frames.skip(excess).push(frame),
                        dropped: counted(self.dropped, excess as nat),
                        ..self
                    },
                )
            }
        }
    }
}

/// What the writer of a worker's input does next.
pub enum Next<F> {
    /// The worker is being torn down: stop.
    Done,
    /// Write this frame.
    Frame(F),
    /// Nothing will follow: close the worker's input.
    End,
    /// Nothing to write yet.
    Wait,
}

impl<F> View for SendQueue<F> {
    type V = Waiting<F>;

    closed spec fn view(&self) -> Waiting<F> {
        Waiting {
            frames: self.frames@,
            closed: self.closed,
            stopping: self.stopping,
            capacity: self.capacity as nat,
            dropped: self.dropped,
        }
    }
}

impl<F> SendQueue<F> {
    /// An empty queue; it holds one frame at least.
    pub fn new(capacity: usize) -> (r: Self)
        ensures
            r@ == (Waiting::<F> {
                frames: seq![],
                closed: false,
                stopping: false,
                capacity: if capacity < 1 {
                    1
                } else {
                    capacity as nat
                },
                dropped: 0,
            }),
            r@.wf(),
    {
        let r = SendQueue {
            frames: VecDeque::new(),
            closed: false,
            stopping: false,
            capacity: if capacity < 1 {
                1
            } else {
                capacity
            },
            dropped: 0,
        };
        assert(r.frames@ =~= seq![]);
        r
    }

    /// Queues a frame for the worker without blocking. Returns `false` if a
    /// frame was dropped to make room, or the supervisor is shutting down.
    pub fn send(&mut self, frame: F) -> (clean: bool)
        requires
            old(self)@.wf(),
        ensures
            (clean, final(self)@) == old(self)@.send(frame),
            final(self)@.wf(),
    {
        if self.closed || self.stopping {
            return false;
        }
        let ghost all = self.frames@;
        let ghost dropped0 = self.dropped;
        let mut clean = true;
        let ghost mut gone: int = 0;
        proof {
            law_counts_add_up(dropped0, 0, 0);
            assert(all.skip(0) =~= all);
        }
        while self.frames.len() >= self.capacity
            invariant
                self@.wf(),
                0 <= gone <= all.len(),
                gone > 0 ==> all.len() - gone + 1 >= self.capacity,
                self.frames@ == all.skip(gone),
                self.dropped == counted(dropped0, gone as nat),
                clean == (gone == 0),
                self@ == (Waiting {
                    frames: self.frames@,
                    dropped: self.dropped,
                    ..old(self)@
                }),
            decreases self.frames.len(),
        {
            let oldest = self.frames.pop_front();
            self.dropped = count(self.dropped, 1);
            clean = false;
            proof {
                law_counts_add_up(dropped0, gone as nat, 1);
                gone = gone + 1;
                assert(self.frames@ =~= all.skip(gone));
            }
        }
        self.frames.push_back(frame);
        clean
    }

    /// Refuses new frames from now on.
    pub fn stop(&mut self)
        requires
            old(self)@.wf(),
        ensures
            final(self)@ == (Waiting { stopping: true, ..old(self)@ }),
            final(self)@.wf(),
    {
        self.stopping = true;
    }

    /// Closes the queue behind one last frame, if there is one.
    pub fn close(&mut self, last: Option<F>)
        requires
            old(self)@.wf(),
        ensures
            final(self)@ == (Waiting {
                closed: true,
                frames: match last {
                    Some(f) => old(self)@.frames.push(f),
                    None => old(self)@.frames,
                },
                ..old(self)@
            }),
            final(self)@.wf(),
    {
        self.closed = true;
        if let Some(f) = last {
            self.frames.push_back(f);
        }
    }

    /// Frames waiting for the worker.
    pub fn queued(&self) -> (n: usize)
        ensures
            n == self@.frames.len(),
    {
        self.frames.len()
    }

    /// Frames dropped so far.
    pub fn dropped(&self) -> (n: u64)
        ensures
            n == self@.dropped,
    {
        self.dropped
    }

    /// What the writer does next: nothing is written to a worker that is not
    /// ready.
    pub fn next(&mut self, ready: bool, done: bool) -> (r: Next<F>)
        requires
            old(self)@.wf(),
        ensures
            final(self)@.wf(),
            match r {
                Next::Done => done,
                Next::Frame(f) => {
                    &&& !done && ready
                    &&& old(self)@.frames.len() > 0
                    &&& f == old(self)@.frames[0]
                    &&& final(self)@ == (Waiting {
                        frames: old(self)@.frames.drop_first(),
                        ..old(self)@
                    })
                },
                Next::End => !done && old(self)@.closed && old(self)@.frames.len() == 0,
                Next::Wait => {
                    &&& !done
                    &&& !(ready && old(self)@.frames.len() > 0)
                    &&& !(old(self)@.closed && old(self)@.frames.len() == 0)
                },
            },
            !(r is Frame) ==> final(self)@ == old(self)@,
    {
        if done {
            return Next::Done;
        }
        let ghost before = self.frames@;
        if ready && self.frames.len() > 0 {
            if let Some(f) = self.frames.pop_front() {
                assert(self.frames@ =~= before.drop_first());
                return Next::Frame(f);
            }
        }
        if self.closed && self.frames.len() == 0 {
            return Next::End;
        }
        Next::Wait
    }
}

/// What a look at a running worker tells.
#[derive(Clone, Debug, PartialEq, Eq)]
pub enum Outcome {
    /// Shutdown has started.
    Stop,
    /// The worker is to be torn down, and why.
    Died(String),
    /// The worker is fine.
    Alive,
}

/// What a look at a running worker tells.
pub enum Finding {
    Stop,
    Died(Seq<char>),
    Alive,
}

impl View for Outcome {
    type V = Finding;

    open spec fn view(&self) -> Finding {
        match *self {
            Outcome::Stop => Finding::Stop,
            Outcome::Died(why) => Finding::Died(why@),
            Outcome::Alive => Finding::Alive,
        }
    }
}

impl Policy {
    /// What a look at a running worker tells: `gone` says why the process is
    /// gone, `fatal` why it cannot be talked to.
    pub open spec fn finding(
        self,
        stopping: bool,
        gone: Option<Seq<char>>,
        fatal: Option<Seq<char>>,
        silent_ms: u64,
        ready: bool,
        age_ms: u64,
    ) -> Finding {
        if stopping {
            Finding::Stop
        } else if gone is Some {
            Finding::Died(gone->0)
        } else if fatal is Some {
            Finding::Died(fatal->0)
        } else if silent_ms > self.heartbeat_timeout {
            Finding::Died("no heartbeat for "@ + decimal(silent_ms as nat) + " ms"@)
        } else if !ready && age_ms > self.ready_timeout {
            Finding::Died("not ready after "@ + decimal((self.ready_timeout / 1000) as nat) + " s"@)
        } else {
            Finding::Alive
        }
    }

    /// Looks at a running worker: `silent_ms` since its last frame, `age_ms`
    /// since its start.
    pub fn watch(
        &self,
        stopping: bool,
        gone: Option<String>,
        fatal: Option<String>,
        silent_ms: u64,
        ready: bool,
        age_ms: u64,
    ) -> (r: Outcome)
        ensures
            r@ == self.finding(stopping, text_of(gone), text_of(fatal), silent_ms, ready, age_ms),
    {
        if stopping {
            return Outcome::Stop;
        }
        if let Some(why) = gone {
            return Outcome::Died(why);
        }
        if let Some(why) = fatal {
            return Outcome::Died(why);
        }
        if silent_ms > self.heartbeat_timeout {
            let mut s = String::new();
            push_text(&mut s, "no heartbeat for ");
            push_decimal(&mut s, silent_ms);
            push_text(&mut s, " ms");
            assert(s@ =~= "no heartbeat for "@ + decimal(silent_ms as nat) + " ms"@);
            return Outcome::Died(s);
        }
        if !ready && age_ms > self.ready_timeout {
            let mut s = String::new();
            push_text(&mut s, "not ready after ");
            push_decimal(&mut s, self.ready_timeout / 1000);
            push_text(&mut s, " s");
            assert(s@ =~= "not ready after "@ + decimal((self.ready_timeout / 1000) as nat)
                + " s"@);
            return Outcome::Died(s);
        }
        Outcome::Alive
    }
}

/// The supervisor's record of its worker.
pub struct Status {
    pub state: State,
    /// Restarts since the supervisor started.
    pub restarts: u32,
    pub last_error: Option<String>,
    /// Process id of the current worker, if one is running.
    pub pid: Option<u32>,
    /// Failures in a row.
    pub failures: u32,
}

/// What the record says.
#[verifier::ext_equal]
pub struct Record {
    pub state: State,
    pub restarts: u32,
    pub last_error: Option<Seq<char>>,
    pub pid: Option<u32>,
    pub failures: u32,
}

impl View for Status {
    type V = Record;

    open spec fn view(&self) -> Record {
        Record {
            state: self.state,
            restarts: self.restarts,
            last_error: text_of(self.last_error),
            pid: self.pid,
            failures: self.failures,
        }
    }
}

/// One more, up to the largest number.
pub open spec fn one_more(n: u32) -> u32 {
    if n == u32::MAX {
        n
    } else {
        (n + 1) as u32
    }
}

fn add_one(n: u32) -> (r: u32)
    ensures
        r == one_more(n),
{
    if n == u32::MAX {
        n
    } else {
        n + 1
    }
}

impl Status {
    /// No worker yet.
    pub fn new() -> (r: Self)
        ensures
            r@ == (Record {
                state: State::Starting,
                restarts: 0,
                last_error: None,
                pid: None,
                failures: 0,
            }),
    {
        Status { state: State::Starting, restarts: 0, last_error: None, pid: None, failures: 0 }
    }

    /// A worker is about to be started.
    pub fn starting(&mut self)
        ensures
            final(self)@ == (Record { state: State::Starting, ..old(self)@ }),
    {
        self.state = State::Starting;
    }

    /// A worker process runs.
    pub fn spawned(&mut self, pid: u32)
        ensures
            final(self)@ == (Record { pid: Some(pid), ..old(self)@ }),
    {
        self.pid = Some(pid);
    }

    /// The worker says that it is ready.
    pub fn ready(&mut self)
        ensures
            final(self)@ == (Record { state: State::Ready, ..old(self)@ }),
    {
        self.state = State::Ready;
    }

    /// The worker could not be started.
    pub fn spawn_failed(&mut self, why: String)
        ensures
            final(self)@ == (Record {
                state: State::Failed,
                last_error: Some(why@),
                pid: None,
                ..old(self)@
            }),
    {
        self.state = State::Failed;
        self.last_error = Some(why);
        self.pid = None;
    }

    /// The worker died, `ready_for` after it said that it was ready. One that
    /// was ready for long enough starts the backoff over.
    pub fn died(&mut self, policy: &Policy, why: String, ready_for: Option<u64>)
        ensures
            final(self)@ == (Record {
                last_error: Some(why@),
                pid: None,
                failures: if ready_for matches Some(t) && t >= policy.healthy_reset {
                    0
                } else {
                    old(self)@.failures
                },
                ..old(self)@
            }),
    {
        if let Some(t) = ready_for {
            if t >= policy.healthy_reset {
                self.failures = 0;
            }
        }
        self.last_error = Some(why);
        self.pid = None;
    }

    /// The worker is started again after the delay that is returned. One that
    /// could not be started at all stays marked as failed meanwhile.
    pub fn restart(&mut self, policy: &Policy) -> (delay: u64)
        ensures
            delay == policy.delay(old(self)@.failures),
            final(self)@ == (Record {
                state: if old(self)@.state == State::Failed {
                    State::Failed
                } else {
                    State::Restarting
                },
                restarts: one_more(old(self)@.restarts),
                failures: one_more(old(self)@.failures),
                ..old(self)@
            }),
    {
        let delay = policy.backoff(self.failures);
        self.failures = add_one(self.failures);
        if self.state != State::Failed {
            self.state = State::Restarting;
        }
        self.restarts = add_one(self.restarts);
        delay
    }

    /// The worker was shut down on request.
    pub fn stopped(&mut self)
        ensures
            final(self)@ == (Record { state: State::Stopped, pid: None, ..old(self)@ }),
    {
        self.state = State::Stopped;
        self.pid = None;
    }
}

/// What came from a worker.
#[derive(Clone, Copy, Debug, PartialEq, Eq, Structural)]
pub enum Incoming {
    /// Its output ended.
    Closed,
    /// A frame that is well-formed but not understood.
    Bad,
    /// The framing is broken, or the pipe failed.
    Broken,
    Pcm,
    Heartbeat,
    Ready,
    /// Words, a translation or an error report.
    Output,
    /// Something that only the main process may send.
    Request,
}

/// What to do about it.
#[derive(Clone, Copy, Debug, PartialEq, Eq, Structural)]
pub enum Reaction {
    /// The worker closed its output: it is torn down.
    CloseFatal,
    /// The worker broke the protocol: it is torn down, unless that is under way.
    ProtocolFatal,
    /// Ignore it, and say so or not.
    Ignore { log: bool },
    /// Nothing more than a sign of life.
    Alive,
    /// The worker has become ready.
    BecomeReady,
    /// Hand it to the caller, or count it as dropped if the caller does not
    /// keep up.
    Deliver,
}

/// A power of two.
pub open spec fn is_power_of_two(n: int) -> bool
    decreases n,
{
    n == 1 || (n > 1 && n % 2 == 0 && is_power_of_two(n / 2))
}

/// The reader of a worker's output.
#[derive(Clone, Copy, Debug, PartialEq, Eq, Structural)]
pub struct Reader {
    pub soft_errors: u64,
    pub ready: bool,
}

fn power_of_two_check(n: u64) -> (r: bool)
    ensures
        r == is_power_of_two(n as int),
{
    let mut m: u64 = n;
    while m > 1 && m % 2 == 0
        invariant
            is_power_of_two(n as int) == is_power_of_two(m as int),
        decreases m,
    {
        m = m / 2;
    }
    m == 1
}

impl Reader {
    pub fn new() -> (r: Self)
        ensures
            r == (Reader { soft_errors: 0, ready: false }),
    {
        Reader { soft_errors: 0, ready: false }
    }

    /// Bad frames are reported at first, and then ever more seldom.
    pub open spec fn reported(errors: u64) -> bool {
        errors <= 10 || is_power_of_two(errors as int)
    }

    /// What to do about something that came, and the reader then.
    pub open spec fn reacted(self, incoming: Incoming) -> (Reaction, Reader) {
        let worse = Reader { soft_errors: counted(self.soft_errors, 1), ..self };
        match incoming {
            Incoming::Closed => (Reaction::CloseFatal, self),
            Incoming::Bad => (Reaction::Ignore { log: Reader::reported(worse.soft_errors) }, worse),
            Incoming::Broken => (Reaction::ProtocolFatal, self),
            Incoming::Pcm => (Reaction::Ignore { log: true }, self),
            Incoming::Heartbeat => (Reaction::Alive, self),
            Incoming::Ready => (
                if self.ready {
                    Reaction::Alive
                } else {
                    Reaction::BecomeReady
                },
                Reader { ready: true, ..self },
            ),
            Incoming::Output => (Reaction::Deliver, self),
            Incoming::Request => (Reaction::Ignore { log: true }, worse),
        }
    }

    /// Decides what to do about something that came.
    pub fn react(&mut self, incoming: Incoming) -> (r: Reaction)
        ensures
            (r, *final(self)) == old(self).reacted(incoming),
    {
        match incoming {
            Incoming::Closed => Reaction::CloseFatal,
            Incoming::Bad => {
                self.soft_errors = count(self.soft_errors, 1);
                let log = self.soft_errors <= 10 || power_of_two_check(self.soft_errors);
                Reaction::Ignore { log }
            },
            Incoming::Broken => Reaction::ProtocolFatal,
            Incoming::Pcm => Reaction::Ignore { log: true },
            Incoming::Heartbeat => Reaction::Alive,
            Incoming::Ready => {
                if self.ready {
                    Reaction::Alive
                } else {
                    self.ready = true;
                    Reaction::BecomeReady
                }
            },
            Incoming::Output => Reaction::Deliver,
            Incoming::Request => {
                self.soft_errors = count(self.soft_errors, 1);
                Reaction::Ignore { log: true }
            },
        }
    }
}

/// Whether what came is a frame, which shows that the worker lives.
pub fn shows_life(incoming: Incoming) -> (r: bool)
    ensures
        r == !(incoming is Closed || incoming is Bad || incoming is Broken),
{
    match incoming {
        Incoming::Closed => false,
        Incoming::Bad => false,
        Incoming::Broken => false,
        _ => true,
    }
}

/// Sending never blocks and never grows the queue past its bound: the new frame
/// is there, and what had to go was the oldest.
pub proof fn law_send_drops_the_oldest<F>(q: Waiting<F>, frame: F)
    requires
        q.wf(),
        q.frames.len() <= q.capacity,
        !q.closed,
        !q.stopping,
    ensures
        ({
            let after = q.send(frame).1;
            &&& after.frames.len() <= q.capacity
            &&& after.frames.last() == frame
            &&& q.frames.len() < q.capacity ==> after.frames == q.frames.push(frame)
            &&& q.frames.len() == q.capacity ==> after.frames == q.frames.drop_first().push(frame)
        }),
{
    if q.frames.len() == q.capacity {
        assert(q.frames.skip(1) =~= q.frames.drop_first());
    }
}

/// The backoff never falls from one failure to the next, and never exceeds its
/// cap.
pub proof fn law_backoff_grows_to_the_cap(p: Policy, failures: u32)
    requires
        failures < u32::MAX,
    ensures
        p.delay(failures) <= p.delay((failures + 1) as u32) <= p.backoff_max,
{
    if failures < 31 {
        let a = power_of_two(failures as nat);
        assert(p.backoff_initial * a <= p.backoff_initial * (2 * a)) by (nonlinear_arith)
            requires
                p.backoff_initial >= 0,
                a >= 0,
        ;
        if failures == 30 {
            assert(power_of_two(31) == 2 * a);
        }
    }
}

} // verus!
