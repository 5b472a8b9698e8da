//! Re-stamps buffers from a restartable input so that the output timeline is
//! continuous and monotonic across source restarts and time resets, and locked
//! to the output's running time.
//!
//! - Each run of contiguous input timestamps is a *session* with one
//!   input-to-output offset shared by audio and video. A new session starts when
//!   the input is rebuilt, or when the timestamps jump back by more than 1 s or
//!   forward by more than 3 s. Only video opens a session; audio before it is
//!   dropped.
//! - For the first [`HOLD_NS`] of a session buffers are held while the offset is
//!   taken as the *earliest* arrival seen. The session never starts before the
//!   previous one's last output plus 40 ms, and never before output time 40 ms.
//! - After that, a video frame that would be early pulls the offset back, and
//!   one more than [`LATE_TOL_NS`] late pushes it forward, by at most
//!   [`SLEW_EARLY_NS`] or [`SLEW_NS`] per frame.
//! - Monotonicity is enforced on the video decode time: with B-frames
//!   presentation times legitimately go back in decode order.
//!
//! All times are nanoseconds.
use vstd::prelude::*;

verus! {

pub const SEC: i64 = 1_000_000_000;

/// Startup hold per session.
pub const HOLD_NS: i64 = 500_000_000;

/// Max offset correction per video frame when frames are late (1 ms per frame =
/// 30 ms/s at 30 frames per second).
pub const SLEW_NS: i64 = 1_000_000;

/// Max correction per frame when frames are early. Earliness is paid for in
/// latency, so it is corrected faster.
pub const SLEW_EARLY_NS: i64 = 5_000_000;

/// Lateness tolerated before the slew pushes the offset forward.
pub const LATE_TOL_NS: i64 = 100_000_000;

/// Distance of a session's start from the output before it: 40 ms.
pub const SESSION_GAP_NS: i64 = 40_000_000;

/// Distance of a video frame's decode time from the one before it at least.
pub const MIN_STEP_NS: i64 = 1_000_000;

pub const VIDEO: usize = 0;

pub const AUDIO: usize = 1;

/// One stream of the session.
#[derive(Clone, Copy, Debug, PartialEq, Eq, Structural)]
pub struct StreamState {
    /// Its last input time in this session.
    pub last_in: Option<i64>,
    /// Its latest output time.
    pub last_out: i64,
}

/// The input-to-output offset and what it rests on.
#[derive(Clone, Copy, Debug, PartialEq, Eq, Structural)]
pub struct Rebase {
    pub session: u64,
    pub offset: i64,
    pub ref_in: i64,
    pub video: StreamState,
    pub audio: StreamState,
    pub force_new: bool,
    /// When the session's startup hold ends, while it is running.
    pub hold_until: Option<i64>,
    pub min_off: i64,
    pub first_in: i64,
    pub slewed_ns: i64,
    pub last_dts: i64,
}

#[derive(Clone, Copy, Debug, PartialEq, Eq, Structural)]
pub enum Verdict {
    Drop,
    /// The buffer belongs to the current session (possibly one just opened).
    Session { new: bool },
}

/// The output times of a buffer, and what it does to the offset.
pub struct Stamp {
    pub pts: int,
    pub dts: int,
    pub offset: int,
    pub slewed_ns: int,
    pub last_dts: int,
    pub last_out: int,
}

pub open spec fn smaller(a: int, b: int) -> int {
    if a < b {
        a
    } else {
        b
    }
}

pub open spec fn larger(a: int, b: int) -> int {
    if a < b {
        b
    } else {
        a
    }
}

/// The time fits in 64 bits.
pub open spec fn fits(t: int) -> bool {
    i64::MIN <= t <= i64::MAX
}

/// The buffer's distance to the clock, and the end of a hold, can be told.
pub open spec fn clock_fits(in_pts: i64, now_rt: i64) -> bool {
    fits(now_rt - in_pts) && fits(now_rt + HOLD_NS)
}

impl Rebase {
    pub open spec fn stream(self, s: usize) -> StreamState {
        if s == VIDEO {
            self.video
        } else {
            self.audio
        }
    }

    /// The buffer goes on where the session is.
    pub open spec fn continues(self, s: usize, in_pts: i64) -> bool {
        !self.force_new && match self.stream(s).last_in {
            Some(last) => last - SEC <= in_pts <= last + 3 * SEC,
            None => self.session > 0 && -3 * SEC <= in_pts - self.ref_in <= 3 * SEC,
        }
    }

    /// A session that a video buffer opens.
    pub open spec fn opened(self, in_pts: i64, now_rt: i64) -> Rebase {
        Rebase {
            session: (self.session + 1) as u64,
            video: StreamState { last_in: None, ..self.video },
            audio: StreamState { last_in: None, ..self.audio },
            force_new: false,
            hold_until: Some((now_rt + HOLD_NS) as i64),
            min_off: (now_rt - in_pts) as i64,
            first_in: in_pts,
            ..self
        }
    }

    /// The session with one more buffer in it.
    pub open spec fn joined(self, s: usize, in_pts: i64, now_rt: i64) -> Rebase {
        let r = Rebase {
            min_off: if s == VIDEO && self.hold_until is Some {
                smaller(self.min_off as int, now_rt - in_pts) as i64
            } else {
                self.min_off
            },
            ref_in: in_pts,
            ..self
        };
        if s == VIDEO {
            Rebase { video: StreamState { last_in: Some(in_pts), ..r.video }, ..r }
        } else {
            Rebase { audio: StreamState { last_in: Some(in_pts), ..r.audio }, ..r }
        }
    }

    /// Whose session a buffer belongs to, and the state with it.
    pub open spec fn classified(self, s: usize, in_pts: i64, now_rt: i64) -> (Verdict, Rebase) {
        if self.continues(s, in_pts) {
            (Verdict::Session { new: false }, self.joined(s, in_pts, now_rt))
        } else if s != VIDEO {
            (Verdict::Drop, Rebase { force_new: true, ..self })
        } else {
            (
                Verdict::Session { new: true },
                self.opened(in_pts, now_rt).joined(s, in_pts, now_rt),
            )
        }
    }

    /// The offset that a hold ends with: the earliest arrival, or as late as
    /// the output before it asks.
    pub open spec fn held_offset(self) -> int {
        let last = larger(self.video.last_out as int, self.audio.last_out as int);
        larger(self.min_off as int, last + SESSION_GAP_NS - self.first_in)
    }

    /// How far the offset moves toward the clock for a video frame whose decode
    /// time would be `early` ahead of it.
    pub open spec fn slew(early: int) -> int {
        if early > 0 {
            -smaller(early, SLEW_EARLY_NS as int)
        } else if early < -LATE_TOL_NS {
            smaller(-early - LATE_TOL_NS, SLEW_NS as int)
        } else {
            0
        }
    }

    /// A buffer's output times.
    pub open spec fn stamp(self, s: usize, in_pts: i64, dts_shift: i64, now_rt: i64) -> Stamp {
        if s == VIDEO {
            let move_by = Rebase::slew(in_pts + self.offset + dts_shift - now_rt);
            let near = in_pts + self.offset + move_by;
            let step = if near + dts_shift <= self.last_dts {
                self.last_dts + MIN_STEP_NS - (near + dts_shift)
            } else {
                0
            };
            let out = near + step;
            Stamp {
                pts: out,
                dts: out + dts_shift,
                offset: self.offset + move_by + step,
                slewed_ns: self.slewed_ns + (if move_by < 0 {
                    -move_by
                } else {
                    move_by
                }),
                last_dts: out + dts_shift,
                last_out: larger(self.video.last_out as int, out),
            }
        } else {
            let out = in_pts + self.offset;
            Stamp {
                pts: out,
                dts: out + dts_shift,
                offset: self.offset as int,
                slewed_ns: self.slewed_ns as int,
                last_dts: self.last_dts as int,
                last_out: larger(self.audio.last_out as int, out),
            }
        }
    }

    /// The state behind a stamp.
    pub open spec fn stamped(self, s: usize, stamp: Stamp) -> Rebase {
        let r = Rebase {
            offset: stamp.offset as i64,
            slewed_ns: stamp.slewed_ns as i64,
            last_dts: stamp.last_dts as i64,
            ..self
        };
        if s == VIDEO {
            Rebase { video: StreamState { last_out: stamp.last_out as i64, ..r.video }, ..r }
        } else {
            Rebase { audio: StreamState { last_out: stamp.last_out as i64, ..r.audio }, ..r }
        }
    }

    /// The state at the start: no session, output from zero.
    pub open spec fn start(force_new: bool) -> Rebase {
        let stream = StreamState { last_in: None, last_out: 0 };
        Rebase {
            session: 0,
            offset: 0,
            ref_in: 0,
            video: stream,
            audio: stream,
            force_new,
            hold_until: None,
            min_off: 0,
            first_in: 0,
            slewed_ns: 0,
            last_dts: 0,
        }
    }

    fn fresh(force_new: bool) -> (r: Rebase)
        ensures
            r == Rebase::start(force_new),
    {
        let stream = StreamState { last_in: None, last_out: 0 };
        Rebase {
            session: 0,
            offset: 0,
            ref_in: 0,
            video: stream,
            audio: stream,
            force_new,
            hold_until: None,
            min_off: 0,
            first_in: 0,
            slewed_ns: 0,
            last_dts: 0,
        }
    }

    /// Decides which session a buffer belongs to.
    pub fn classify(&mut self, s: usize, in_pts: i64, now_rt: i64) -> (r: Verdict)
        requires
            s == VIDEO || s == AUDIO,
            clock_fits(in_pts, now_rt),
            old(self).session < u64::MAX,
        ensures
            (r, *final(self)) == old(self).classified(s, in_pts, now_rt),
    {
        let last_in = if s == VIDEO {
            self.video.last_in
        } else {
            self.audio.last_in
        };
        let at: i128 = in_pts as i128;
        let fits = !self.force_new && match last_in {
            Some(last) => {
                at >= last as i128 - SEC as i128 && at <= last as i128 + 3 * SEC as i128
            },
            None => {
                let away: i128 = at - self.ref_in as i128;
                self.session > 0 && -away <= 3 * SEC as i128 && away <= 3 * SEC as i128
            },
        };
        let mut new = false;
        if !fits {
            if s == AUDIO {
                self.force_new = true;
                return Verdict::Drop;
            }
            self.session = self.session + 1;
            self.video.last_in = None;
            self.audio.last_in = None;
            self.force_new = false;
            self.hold_until = Some(now_rt + HOLD_NS);
            self.min_off = now_rt - in_pts;
            self.first_in = in_pts;
            new = true;
        }
        if s == VIDEO && self.hold_until.is_some() && now_rt - in_pts < self.min_off {
            self.min_off = now_rt - in_pts;
        }
        if s == VIDEO {
            self.video.last_in = Some(in_pts);
        } else {
            self.audio.last_in = Some(in_pts);
        }
        self.ref_in = in_pts;
        Verdict::Session { new }
    }

    /// Ends the hold: fixes the session offset. False, and nothing changed, if
    /// the offset does not fit in 64 bits.
    pub fn finish_hold(&mut self) -> (r: bool)
        ensures
            r == fits(old(self).held_offset()),
            *final(self) == if r {
                Rebase {
                    offset: old(self).held_offset() as i64,
                    hold_until: None,
                    ..*old(self)
                }
            } else {
                *old(self)
            },
    {
        let last: i128 = if self.video.last_out < self.audio.last_out {
            self.audio.last_out as i128
        } else {
            self.video.last_out as i128
        };
        let floor: i128 = last + SESSION_GAP_NS as i128 - self.first_in as i128;
        let offset: i128 = if (self.min_off as i128) < floor {
            floor
        } else {
            self.min_off as i128
        };
        if offset < i64::MIN as i128 || offset > i64::MAX as i128 {
            return false;
        }
        self.offset = offset as i64;
        self.hold_until = None;
        true
    }

    /// Output presentation and decode time for a buffer of the current session
    /// that is not on hold. `dts_shift` is its decode time from its
    /// presentation time. `None`, and nothing changed, if a time does not fit
    /// in 64 bits.
    pub fn out_ts(&mut self, s: usize, in_pts: i64, dts_shift: i64, now_rt: i64) -> (r: Option<
        (i64, i64),
    >)
        requires
            s == VIDEO || s == AUDIO,
        ensures
            ({
                let stamp = old(self).stamp(s, in_pts, dts_shift, now_rt);
                if stamp_fits(stamp) {
                    &&& r == Some((stamp.pts as i64, stamp.dts as i64))
                    &&& *final(self) == old(self).stamped(s, stamp)
                } else {
                    r is None && *final(self) == *old(self)
                }
            }),
    {
        let mut out: i128 = in_pts as i128 + self.offset as i128;
        let shift: i128 = dts_shift as i128;
        let mut offset: i128 = self.offset as i128;
        let mut slewed: i128 = self.slewed_ns as i128;
        let mut last_dts: i128 = self.last_dts as i128;
        if s == VIDEO {
            let early: i128 = out + shift - now_rt as i128;
            if early > 0 {
                let d: i128 = if early < SLEW_EARLY_NS as i128 {
                    early
                } else {
                    SLEW_EARLY_NS as i128
                };
                offset = offset - d;
                slewed = slewed + d;
                out = out - d;
            } else if early < -(LATE_TOL_NS as i128) {
                let over: i128 = -early - LATE_TOL_NS as i128;
                let d: i128 = if over < SLEW_NS as i128 {
                    over
                } else {
                    SLEW_NS as i128
                };
                offset = offset + d;
                slewed = slewed + d;
                out = out + d;
            }
            let dts: i128 = out + shift;
            if dts <= last_dts {
                let d: i128 = last_dts + MIN_STEP_NS as i128 - dts;
                offset = offset + d;
                out = out + d;
            }
            last_dts = out + shift;
        }
        let before: i128 = if s == VIDEO {
            self.video.last_out as i128
        } else {
            self.audio.last_out as i128
        };
        let last_out: i128 = if before < out {
            out
        } else {
            before
        };
        let lo: i128 = i64::MIN as i128;
        let hi: i128 = i64::MAX as i128;
        let dts: i128 = out + shift;
        let all_fit = lo <= out && out <= hi && lo <= dts && dts <= hi && lo <= offset && offset
            <= hi && slewed <= hi && lo <= slewed && lo <= last_dts && last_dts <= hi && lo
            <= last_out && last_out <= hi;
        if !all_fit {
            return None;
        }
        self.offset = offset as i64;
        self.slewed_ns = slewed as i64;
        self.last_dts = last_dts as i64;
        if s == VIDEO {
            self.video.last_out = last_out as i64;
        } else {
            self.audio.last_out = last_out as i64;
        }
        Some((out as i64, dts as i64))
    }
}

/// Every time of the stamp fits in 64 bits.
pub open spec fn stamp_fits(t: Stamp) -> bool {
    fits(t.pts) && fits(t.dts) && fits(t.offset) && fits(t.slewed_ns) && fits(t.last_dts) && fits(
        t.last_out,
    )
}

impl Default for Rebase {
    fn default() -> (r: Self)
        ensures
            r == Rebase::start(false),
    {
        Rebase::fresh(false)
    }
}

/// Video decode times strictly increase, whatever comes in.
pub proof fn law_video_decode_times_increase(r: Rebase, in_pts: i64, dts_shift: i64, now_rt: i64)
    requires
        stamp_fits(r.stamp(VIDEO, in_pts, dts_shift, now_rt)),
    ensures
        ({
            let stamp = r.stamp(VIDEO, in_pts, dts_shift, now_rt);
            &&& stamp.dts > r.last_dts
            &&& r.stamped(VIDEO, stamp).last_dts == stamp.dts
        }),
{
}

/// A new session starts behind everything that went out before it, by 40 ms at
/// least: its first buffer, stamped with the offset that the hold ends with.
pub proof fn law_sessions_never_go_back(r: Rebase)
    ensures
        r.first_in + r.held_offset() >= r.video.last_out + 40_000_000,
        r.first_in + r.held_offset() >= r.audio.last_out + 40_000_000,
        r.held_offset() >= r.min_off,
        Rebase::start(false).video.last_out == 0,
{
}

/// Audio and video of a session share one offset: an audio buffer moves by it
/// exactly, and leaves it as it is.
pub proof fn law_audio_follows_the_offset(r: Rebase, in_pts: i64, dts_shift: i64, now_rt: i64)
    ensures
        ({
            let stamp = r.stamp(AUDIO, in_pts, dts_shift, now_rt);
            &&& stamp.pts == in_pts + r.offset
            &&& stamp.dts == stamp.pts + dts_shift
            &&& stamp.offset == r.offset
            &&& stamp.last_dts == r.last_dts
            &&& stamp.last_out >= stamp.pts && stamp.last_out >= r.audio.last_out
            &&& stamp.last_out == stamp.pts || stamp.last_out == r.audio.last_out
            &&& r.stamped(AUDIO, stamp).offset == r.offset
            &&& r.stamped(AUDIO, stamp).audio.last_out == stamp.last_out as i64
            &&& r.stamped(AUDIO, stamp).video == r.video
        }),
{
}

/// Audio never opens a session.
pub proof fn law_only_video_opens_a_session(r: Rebase, in_pts: i64, now_rt: i64)
    ensures
        r.classified(AUDIO, in_pts, now_rt).0 != (Verdict::Session { new: true }),
        r.classified(AUDIO, in_pts, now_rt).1.session == r.session,
{
}

/// A frame goes out at its presentation time: spacing within a session is the
/// source's, but for the bounded correction of each frame, as long as decode
/// times increase by themselves.
pub proof fn law_corrections_are_bounded(r: Rebase, in_pts: i64, dts_shift: i64, now_rt: i64)
    ensures
        ({
            let stamp = r.stamp(VIDEO, in_pts, dts_shift, now_rt);
            let early = in_pts + r.offset + dts_shift - now_rt;
            let move_by = stamp.offset - r.offset;
            &&& stamp.pts == in_pts + stamp.offset
            &&& in_pts + r.offset + dts_shift > r.last_dts + 5_000_000 ==> -5_000_000
                <= move_by <= 1_000_000
            &&& -100_000_000 <= early <= 0 && in_pts + r.offset + dts_shift > r.last_dts
                ==> move_by == 0
        }),
{
}

/// Which session a video buffer belongs to, told by the clock alone. Behind the
/// last video buffer by no more than 3 s, or before it by no more than 1 s, it
/// goes on; any further, or when a new session is asked for, it opens a session
/// that holds for half a second and measures its offset anew. The first video
/// buffer behind audio goes on within 3 s of it either way.
pub proof fn law_video_jumps_open_a_session(r: Rebase, in_pts: i64, now_rt: i64)
    requires
        clock_fits(in_pts, now_rt),
        r.session < u64::MAX,
    ensures
        ({
            let (verdict, after) = r.classified(VIDEO, in_pts, now_rt);
            let opens = verdict == (Verdict::Session { new: true });
            let goes_on = verdict == (Verdict::Session { new: false });
            &&& opens || goes_on
            &&& r.force_new ==> opens
            &&& !r.force_new && r.video.last_in is Some ==> {
                let jump = in_pts - r.video.last_in->0;
                &&& jump > 3_000_000_000 ==> opens
                &&& jump < -1_000_000_000 ==> opens
                &&& -1_000_000_000 <= jump <= 3_000_000_000 ==> goes_on
            }
            &&& !r.force_new && r.video.last_in is None ==> {
                let away = in_pts - r.ref_in;
                &&& r.session == 0 ==> opens
                &&& r.session > 0 && -3_000_000_000 <= away <= 3_000_000_000 ==> goes_on
                &&& away > 3_000_000_000 || away < -3_000_000_000 ==> opens
            }
            &&& opens ==> {
                &&& after.session == r.session + 1
                &&& after.hold_until == Some((now_rt + 500_000_000) as i64)
                &&& after.first_in == in_pts
                &&& after.min_off == now_rt - in_pts
                &&& after.audio.last_in is None
                &&& !after.force_new
            }
            &&& goes_on ==> {
                &&& after.session == r.session
                &&& after.hold_until == r.hold_until
                &&& after.first_in == r.first_in
                &&& after.audio.last_in == r.audio.last_in
                &&& r.hold_until is None ==> after.min_off == r.min_off
                &&& r.hold_until is Some ==> after.min_off <= r.min_off && after.min_off <= now_rt
                    - in_pts && (after.min_off == r.min_off || after.min_off == now_rt - in_pts)
            }
            &&& after.video.last_in == Some(in_pts)
            &&& after.ref_in == in_pts
            &&& after.offset == r.offset
            &&& after.video.last_out == r.video.last_out
            &&& after.audio.last_out == r.audio.last_out
            &&& after.last_dts == r.last_dts
        }),
{
}

/// An audio buffer goes on where the session's audio is, as video does; one that
/// does not is dropped, and the next video buffer opens a session. Audio never
/// touches the offset.
pub proof fn law_audio_jumps_are_dropped(r: Rebase, in_pts: i64, now_rt: i64)
    ensures
        ({
            let (verdict, after) = r.classified(AUDIO, in_pts, now_rt);
            let goes_on = verdict == (Verdict::Session { new: false });
            &&& goes_on || verdict == Verdict::Drop
            &&& r.force_new ==> !goes_on
            &&& !r.force_new && r.audio.last_in is Some ==> (goes_on <==> -1_000_000_000 <= in_pts
                - r.audio.last_in->0 <= 3_000_000_000)
            &&& !r.force_new && r.audio.last_in is None ==> (goes_on <==> r.session > 0
                && -3_000_000_000 <= in_pts - r.ref_in <= 3_000_000_000)
            &&& goes_on ==> after.audio.last_in == Some(in_pts) && after.ref_in == in_pts
                && !after.force_new && after.video == r.video
            &&& !goes_on ==> after == (Rebase { force_new: true, ..r })
            &&& after.session == r.session && after.offset == r.offset && after.min_off
                == r.min_off && after.hold_until == r.hold_until && after.first_in == r.first_in
        }),
{
}

/// The offset that a hold ends with lets no buffer out before its earliest
/// arrival, nor within 40 ms of what went out before, and is no larger than one
/// of the two asks.
pub proof fn law_a_hold_ends_with_the_least_offset(r: Rebase)
    ensures
        r.held_offset() >= r.min_off,
        r.first_in + r.held_offset() >= r.video.last_out + 40_000_000,
        r.first_in + r.held_offset() >= r.audio.last_out + 40_000_000,
        r.held_offset() == r.min_off || r.first_in + r.held_offset() == r.video.last_out
            + 40_000_000 || r.first_in + r.held_offset() == r.audio.last_out + 40_000_000,
{
}

/// A video frame whose decode time would be ahead of the clock is pulled back,
/// by no more than it is ahead and by no more than 5 ms; one more than 100 ms
/// behind is pushed on by what it is over, at most 1 ms; another one keeps the
/// offset. Decode times that would not increase are moved 1 ms behind the last.
/// The next frame is stamped with the same offset.
pub proof fn law_video_is_locked_to_the_clock(r: Rebase, in_pts: i64, dts_shift: i64, now_rt: i64)
    ensures
        ({
            let stamp = r.stamp(VIDEO, in_pts, dts_shift, now_rt);
            let plain = in_pts + r.offset + dts_shift;
            let early = plain - now_rt;
            let moved = stamp.offset - r.offset;
            &&& stamp.pts == in_pts + stamp.offset
            &&& stamp.dts == stamp.pts + dts_shift
            &&& stamp.dts > r.last_dts
            &&& stamp.last_dts == stamp.dts
            &&& stamp.last_out >= stamp.pts && stamp.last_out >= r.video.last_out
            &&& stamp.last_out == stamp.pts || stamp.last_out == r.video.last_out
            &&& early > 5_000_000 && plain - 5_000_000 > r.last_dts ==> moved == -5_000_000
            &&& 0 < early <= 5_000_000 && now_rt > r.last_dts ==> stamp.dts == now_rt
            &&& -100_000_000 <= early <= 0 && plain > r.last_dts ==> moved == 0
            &&& -101_000_000 <= early < -100_000_000 && plain > r.last_dts ==> stamp.dts == now_rt
                - 100_000_000
            &&& early < -101_000_000 && plain > r.last_dts ==> moved == 1_000_000
            &&& plain <= r.last_dts - 1_000_000 ==> stamp.dts == r.last_dts + 1_000_000
            &&& r.stamped(VIDEO, stamp).offset == stamp.offset as i64
            &&& r.stamped(VIDEO, stamp).video.last_out == stamp.last_out as i64
            &&& r.stamped(VIDEO, stamp).video.last_in == r.video.last_in
            &&& r.stamped(VIDEO, stamp).audio == r.audio
            &&& r.stamped(VIDEO, stamp).hold_until == r.hold_until
        }),
{
}

/// A buffer on hold.
pub struct Held<T> {
    pub s: usize,
    pub in_pts: i64,
    pub dts_shift: i64,
    pub item: T,
}

/// A buffer with its output times; `None` if they cannot be used.
pub struct Stamped<T> {
    pub s: usize,
    pub times: Option<(i64, i64)>,
    /// The first buffer of a session: the timeline is cut here.
    pub first: bool,
    pub item: T,
}

/// What became of a buffer.
pub struct Pushed<T> {
    /// It opened a session; what was held before it is gone.
    pub new_session: bool,
    /// It belongs to no session.
    pub dropped: bool,
    /// Buffers to forward, in order.
    pub out: Vec<Stamped<T>>,
}

/// What became of a buffer, and the buffers to forward.
#[verifier::ext_equal]
pub struct Outcome<T> {
    pub new_session: bool,
    pub dropped: bool,
    pub out: Seq<Stamped<T>>,
}

impl<T> View for Pushed<T> {
    type V = Outcome<T>;

    open spec fn view(&self) -> Outcome<T> {
        Outcome { new_session: self.new_session, dropped: self.dropped, out: self.out@ }
    }
}

/// The times that can be put on a buffer: neither before zero.
pub open spec fn usable(stamp: Stamp) -> Option<(i64, i64)> {
    if stamp_fits(stamp) && stamp.pts >= 0 && stamp.dts >= 0 {
        Some((stamp.pts as i64, stamp.dts as i64))
    } else {
        None
    }
}

/// A buffer stamped, and the state behind it.
pub open spec fn stamp_one<T>(r: Rebase, h: Held<T>, now_rt: i64, first: bool) -> (
    Stamped<T>,
    Rebase,
) {
    let stamp = r.stamp(h.s, h.in_pts, h.dts_shift, now_rt);
    (
        Stamped { s: h.s, times: usable(stamp), first, item: h.item },
        if stamp_fits(stamp) {
            r.stamped(h.s, stamp)
        } else {
            r
        },
    )
}

/// Held buffers stamped one after the other, and the state behind them.
pub open spec fn stamp_all<T>(r: Rebase, held: Seq<Held<T>>, now_rt: i64) -> (
    Seq<Stamped<T>>,
    Rebase,
)
    decreases held.len(),
{
    if held.len() == 0 {
        (seq![], r)
    } else {
        let (out, before) = stamp_all(r, held.drop_last(), now_rt);
        let (last, after) = stamp_one(before, held.last(), now_rt, held.len() == 1);
        (out.push(last), after)
    }
}

/// The bridge between a restartable input and the output.
pub struct Bridge<T> {
    r: Rebase,
    held: Vec<Held<T>>,
}

/// The bridge's state.
#[verifier::ext_equal]
pub struct Crossing<T> {
    pub r: Rebase,
    pub held: Seq<Held<T>>,
}

impl<T> Crossing<T> {
    /// Everything in the bridge is video or audio.
    pub open spec fn wf(self) -> bool {
        forall|i: int|
            0 <= i < self.held.len() ==> {
                let s = (#[trigger] self.held[i]).s;
                s == VIDEO || s == AUDIO
            }
    }

    /// What becomes of a buffer, and the bridge behind it.
    pub open spec fn push(self, h: Held<T>, now_rt: i64) -> (Outcome<T>, Crossing<T>) {
        let (verdict, r) = self.r.classified(h.s, h.in_pts, now_rt);
        if verdict == Verdict::Drop {
            (
                Outcome { new_session: false, dropped: true, out: seq![] },
                Crossing { r, held: self.held },
            )
        } else {
            let new_session = verdict == (Verdict::Session { new: true });
            let held = if new_session {
                seq![]
            } else {
                self.held
            };
            match r.hold_until {
                Some(until) => {
                    let all = held.push(h);
                    if now_rt < until || !fits(r.held_offset()) {
                        (
                            Outcome { new_session, dropped: false, out: seq![] },
                            Crossing { r, held: all },
                        )
                    } else {
                        let fixed = Rebase {
                            offset: r.held_offset() as i64,
                            hold_until: None,
                            ..r
                        };
                        let (out, after) = stamp_all(fixed, all, now_rt);
                        (
                            Outcome { new_session, dropped: false, out },
                            Crossing { r: after, held: seq![] },
                        )
                    }
                },
                None => {
                    let (out, after) = stamp_one(r, h, now_rt, false);
                    (
                        Outcome { new_session, dropped: false, out: seq![out] },
                        Crossing { r: after, held },
                    )
                },
            }
        }
    }
}

impl<T> View for Bridge<T> {
    type V = Crossing<T>;

    closed spec fn view(&self) -> Crossing<T> {
        Crossing { r: self.r, held: self.held@ }
    }
}

fn stamp_held<T>(r: &mut Rebase, h: Held<T>, now_rt: i64, first: bool) -> (out: Stamped<T>)
    requires
        h.s == VIDEO || h.s == AUDIO,
    ensures
        (out, *final(r)) == stamp_one(*old(r), h, now_rt, first),
{
    let times = match r.out_ts(h.s, h.in_pts, h.dts_shift, now_rt) {
        Some((pts, dts)) => if pts < 0 || dts < 0 {
            None
        } else {
            Some((pts, dts))
        },
        None => None,
    };
    Stamped { s: h.s, times, first, item: h.item }
}

impl<T> Bridge<T> {
    /// A bridge that has seen nothing.
    pub fn new() -> (b: Self)
        ensures
            b@ == (Crossing::<T> { r: Rebase::start(false), held: seq![] }),
            b@.wf(),
    {
        let b = Bridge { r: Rebase::fresh(false), held: Vec::new() };
        assert(b.held@ =~= seq![]);
        b
    }

    /// Whether another session can be counted.
    pub fn sessions(&self) -> (n: u64)
        ensures
            n == self@.r.session,
    {
        self.r.session
    }

    /// Call when the input is rebuilt: the next video buffer starts a session.
    pub fn reset(&mut self)
        ensures
            final(self)@ == (Crossing::<T> {
                r: Rebase { force_new: true, hold_until: None, ..old(self)@.r },
                held: seq![],
            }),
            final(self)@.wf(),
    {
        self.r.force_new = true;
        self.held = Vec::new();
        self.r.hold_until = None;
        assert(self.held@ =~= seq![]);
    }

    /// Call when there is a new output: its running time starts again at zero,
    /// so the timeline starts over too.
    pub fn set_targets(&mut self)
        ensures
            final(self)@ == (Crossing::<T> { r: Rebase::start(true), held: seq![] }),
            final(self)@.wf(),
    {
        self.r = Rebase::fresh(true);
        self.held = Vec::new();
        assert(self.held@ =~= seq![]);
    }

    /// Takes a buffer of stream `s` that arrives at running time `now_rt`, and
    /// returns the buffers to forward. A hold whose offset does not fit in 64
    /// bits goes on.
    pub fn push(&mut self, s: usize, in_pts: i64, dts_shift: i64, now_rt: i64, item: T) -> (p:
        Pushed<T>)
        requires
            old(self)@.wf(),
            s == VIDEO || s == AUDIO,
            clock_fits(in_pts, now_rt),
            old(self)@.r.session < u64::MAX,
        ensures
            (p@, final(self)@) == old(self)@.push(Held { s, in_pts, dts_shift, item }, now_rt),
            final(self)@.wf(),
    {
        let mut out: Vec<Stamped<T>> = Vec::new();
        assert(out@ =~= seq![]);
        let new_session = match self.r.classify(s, in_pts, now_rt) {
            Verdict::Drop => {
                return Pushed { new_session: false, dropped: true, out };
            },
            Verdict::Session { new } => new,
        };
        if new_session {
            self.held = Vec::new();
            assert(self.held@ =~= seq![]);
        }
        let h = Held { s, in_pts, dts_shift, item };
        if let Some(until) = self.r.hold_until {
            self.held.push(h);
            if now_rt < until || !self.r.finish_hold() {
                return Pushed { new_session, dropped: false, out };
            }
            let ghost fixed = self.r;
            let ghost all = self.held@;
            let mut first = true;
            let mut held: Vec<Held<T>> = Vec::new();
            assert(held@ =~= seq![]);
            std::mem::swap(&mut held, &mut self.held);
            let ghost n = all.len();
            assert(stamp_all(fixed, all.take(0), now_rt) == (Seq::<Stamped<T>>::empty(), fixed));
            assert(held@ =~= all.skip(0));
            while held.len() > 0
                invariant
                    n == all.len(),
                    out@.len() + held@.len() == n,
                    held@ == all.skip(out@.len() as int),
                    (out@, self.r) == stamp_all(fixed, all.take(out@.len() as int), now_rt),
                    first == (out@.len() == 0),
                    self.held@ == Seq::<Held<T>>::empty(),
                    forall|i: int|
                        0 <= i < all.len() ==> {
                            let s = (#[trigger] all[i]).s;
                            s == VIDEO || s == AUDIO
                        },
                decreases held.len(),
            {
                let ghost k = out@.len() as int;
                let h = held.remove(0);
                assert(h == all[k]);
                let x = stamp_held(&mut self.r, h, now_rt, first);
                proof {
                    assert(all.take(k + 1).drop_last() =~= all.take(k));
                    assert(all.take(k + 1).last() == h);
                }
                out.push(x);
                first = false;
                assert(held@ =~= all.skip(k + 1));
            }
            assert(all.take(n as int) =~= all);
            return Pushed { new_session, dropped: false, out };
        }
        let x = stamp_held(&mut self.r, h, now_rt, false);
        out.push(x);
        assert(out@ =~= seq![x]);
        Pushed { new_session, dropped: false, out }
    }
}

/// The decode time of a video buffer that can be forwarded.
pub open spec fn video_dts<T>(x: Stamped<T>) -> Option<int> {
    match x.times {
        Some((pts, dts)) => if x.s == VIDEO {
            Some(dts as int)
        } else {
            None
        },
        None => None,
    }
}

/// Video decode times increase from one bound to another.
pub open spec fn increasing<T>(out: Seq<Stamped<T>>, above: int, upto: int) -> bool {
    &&& above <= upto
    &&& forall|i: int|
        0 <= i < out.len() ==> (video_dts(#[trigger] out[i]) matches Some(t) ==> above < t <= upto)
    &&& forall|i: int, j: int|
        0 <= i < j < out.len() ==> (video_dts(#[trigger] out[i]) matches Some(a) ==> (video_dts(
            #[trigger] out[j],
        ) matches Some(b) ==> a < b))
}

proof fn lemma_stamp_all_increases<T>(r: Rebase, held: Seq<Held<T>>, now_rt: i64)
    ensures
        increasing(
            stamp_all(r, held, now_rt).0,
            r.last_dts as int,
            stamp_all(r, held, now_rt).1.last_dts as int,
        ),
    decreases held.len(),
{
    if held.len() > 0 {
        let (out, before) = stamp_all(r, held.drop_last(), now_rt);
        let (last, after) = stamp_one(before, held.last(), now_rt, held.len() == 1);
        lemma_stamp_all_increases(r, held.drop_last(), now_rt);
        let all = out.push(last);
        assert forall|i: int| 0 <= i < all.len() implies (video_dts(#[trigger] all[i]) matches Some(
            t,
        ) ==> r.last_dts < t <= after.last_dts) by {
            if i < out.len() {
                assert(all[i] == out[i]);
            }
        }
        assert forall|i: int, j: int| 0 <= i < j < all.len() implies (video_dts(
            #[trigger] all[i],
        ) matches Some(a) ==> (video_dts(#[trigger] all[j]) matches Some(b) ==> a < b)) by {
            assert(all[i] == out[i]);
            if j < out.len() {
                assert(all[j] == out[j]);
            }
        }
    }
}

/// Across the bridge video decode times only move forward: what a buffer sets
/// free lies behind everything forwarded before it, in increasing order, over
/// holds, new sessions and rebuilt inputs.
pub proof fn law_forwarded_video_moves_forward<T>(b: Crossing<T>, h: Held<T>, now_rt: i64)
    ensures
        increasing(
            b.push(h, now_rt).0.out,
            b.r.last_dts as int,
            b.push(h, now_rt).1.r.last_dts as int,
        ),
{
    let (verdict, r) = b.r.classified(h.s, h.in_pts, now_rt);
    assert(r.last_dts == b.r.last_dts);
    if verdict != Verdict::Drop {
        let held = if verdict == (Verdict::Session { new: true }) {
            seq![]
        } else {
            b.held
        };
        match r.hold_until {
            Some(until) => {
                let fixed = Rebase { offset: r.held_offset() as i64, hold_until: None, ..r };
                lemma_stamp_all_increases(fixed, held.push(h), now_rt);
            },
            None => {},
        }
    }
}

/// What goes out is what came in, buffer by buffer: the same item of the same
/// stream, its decode time as far from its presentation time as before, no time
/// below zero, and only the first of all marked as such.
pub open spec fn goes_out_as<T>(out: Seq<Stamped<T>>, held: Seq<Held<T>>, first: bool) -> bool {
    &&& out.len() == held.len()
    &&& forall|i: int|
        0 <= i < out.len() ==> {
            let x = #[trigger] out[i];
            &&& x.item == held[i].item
            &&& x.s == held[i].s
            &&& x.first == (first && i == 0)
            &&& x.times matches Some((pts, dts)) ==> pts >= 0 && dts >= 0 && dts - pts
                == held[i].dts_shift
        }
}

proof fn lemma_stamp_all_keeps<T>(r: Rebase, held: Seq<Held<T>>, now_rt: i64)
    ensures
        goes_out_as(stamp_all(r, held, now_rt).0, held, true),
    decreases held.len(),
{
    if held.len() > 0 {
        lemma_stamp_all_keeps(r, held.drop_last(), now_rt);
        let (out, before) = stamp_all(r, held.drop_last(), now_rt);
        let all = stamp_all(r, held, now_rt).0;
        assert forall|i: int| 0 <= i < all.len() implies {
            let x = #[trigger] all[i];
            &&& x.item == held[i].item
            &&& x.s == held[i].s
            &&& x.first == (i == 0)
            &&& x.times matches Some((pts, dts)) ==> pts >= 0 && dts >= 0 && dts - pts
                == held[i].dts_shift
        } by {
            if i < out.len() {
                assert(all[i] == out[i]);
            }
        }
    }
}

/// No buffer of a session is lost or goes out twice. Until half a second after
/// its session was opened a buffer waits behind the others; with the first one
/// that comes later all that waited go out, in the order they came, and nothing
/// waits. From then on each goes out at once, with the times that its stamp
/// holds. A new session drops what still waited for the one before it.
pub proof fn law_every_buffer_goes_out_once<T>(b: Crossing<T>, h: Held<T>, now_rt: i64)
    ensures
        ({
            let (verdict, r) = b.r.classified(h.s, h.in_pts, now_rt);
            let (p, after) = b.push(h, now_rt);
            let waiting = if verdict == (Verdict::Session { new: true }) {
                Seq::<Held<T>>::empty()
            } else {
                b.held
            };
            &&& verdict == Verdict::Drop ==> p.dropped && p.out.len() == 0 && after.held == b.held
            &&& verdict != Verdict::Drop ==> {
                &&& !p.dropped
                &&& p.new_session == (verdict == (Verdict::Session { new: true }))
                &&& r.hold_until matches Some(until) ==> {
                    &&& now_rt < until ==> p.out.len() == 0 && after.held == waiting.push(h)
                        && after.r == r
                    &&& now_rt >= until && fits(r.held_offset()) ==> {
                        &&& goes_out_as(p.out, waiting.push(h), true)
                        &&& after.held.len() == 0
                        &&& after.r.hold_until is None
                    }
                }
                &&& r.hold_until is None ==> {
                    let stamp = r.stamp(h.s, h.in_pts, h.dts_shift, now_rt);
                    &&& goes_out_as(p.out, seq![h], false)
                    &&& after.held == waiting
                    &&& stamp_fits(stamp) ==> {
                        &&& after.r == r.stamped(h.s, stamp)
                        &&& stamp.pts >= 0 && stamp.dts >= 0 ==> p.out[0].times == Some(
                            (stamp.pts as i64, stamp.dts as i64),
                        )
                    }
                }
            }
        }),
{
    let (verdict, r) = b.r.classified(h.s, h.in_pts, now_rt);
    let waiting = if verdict == (Verdict::Session { new: true }) {
        Seq::<Held<T>>::empty()
    } else {
        b.held
    };
    let fixed = Rebase { offset: r.held_offset() as i64, hold_until: None, ..r };
    lemma_stamp_all_keeps(fixed, waiting.push(h), now_rt);
    lemma_stamp_all_unheld(fixed, waiting.push(h), now_rt);
}

proof fn lemma_stamp_all_unheld<T>(r: Rebase, held: Seq<Held<T>>, now_rt: i64)
    ensures
        stamp_all(r, held, now_rt).1.hold_until == r.hold_until,
    decreases held.len(),
{
    if held.len() > 0 {
        lemma_stamp_all_unheld(r, held.drop_last(), now_rt);
    }
}

/// An audio buffer that ends a hold by itself bears exactly the offset that the
/// hold ends with.
pub proof fn law_a_hold_fixes_the_offset<T>(b: Crossing<T>, h: Held<T>, now_rt: i64)
    requires
        b.r.hold_until is Some,
        now_rt >= b.r.hold_until->0,
        b.held.len() == 0,
        h.s == AUDIO,
        b.r.classified(AUDIO, h.in_pts, now_rt).0 != Verdict::Drop,
        fits(b.r.held_offset()),
        fits(h.in_pts + b.r.held_offset()),
        fits(h.in_pts + b.r.held_offset() + h.dts_shift),
        h.in_pts + b.r.held_offset() >= 0,
        h.in_pts + b.r.held_offset() + h.dts_shift >= 0,
    ensures
        ({
            let (p, after) = b.push(h, now_rt);
            &&& p.out.len() == 1
            &&& p.out[0].times == Some(
                (
                    (h.in_pts + b.r.held_offset()) as i64,
                    (h.in_pts + b.r.held_offset() + h.dts_shift) as i64,
                ),
            )
            &&& after.r.offset == b.r.held_offset()
        }),
{
    let r = b.r.classified(AUDIO, h.in_pts, now_rt).1;
    let fixed = Rebase { offset: r.held_offset() as i64, hold_until: None, ..r };
    assert(b.held.push(h).drop_last() =~= seq![]);
    assert(stamp_all(fixed, b.held.push(h).drop_last(), now_rt).1 == fixed);
}

} // verus!
