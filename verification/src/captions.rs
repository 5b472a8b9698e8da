//! The caption stage: text for a lane waits in a per-lane queue and is handed to
//! the lane's encoder once the encoder is not far ahead of the current frame.
//! If queued text plus encoder lead exceed the backlog cap, the oldest queued
//! text is dropped and counted. Callers push text through a [`CaptionHandle`],
//! which holds a bounded number of lines. Times are milliseconds on a clock
//! that does not go back; presentation times are nanoseconds.
use std::collections::VecDeque;
use vstd::prelude::*;

use crate::chars::{from_chars, texts, to_chars, trim, trimmed};
use crate::counter::{count, counted};
use crate::lanes::LaneSpec;

verus! {

/// Keep this many frames of encoder output around for presentation times that
/// jump back.
pub const MAX_AHEAD: u64 = 32;

/// A presentation time this many frames away from the expected one re-anchors
/// the grid.
pub const REANCHOR: i64 = 90;

/// Hand text to an encoder only while it is at most this far ahead (frames).
pub const LEAD_FRAMES: u64 = 6;

/// Per-lane backlog cap (queued text plus encoder lead), seconds.
pub const MAX_BACKLOG_S: u64 = 6;

/// Rough caption bandwidth for the backlog estimate.
pub const CHARS_PER_S: u64 = 40;

/// Text that may wait at the bandwidth for as long as the cap.
pub const MAX_QUEUED_CHARS: u64 = 240;

/// Text waiting between callers and the caption stage.
pub const CHANNEL_CAP: usize = 1024;

/// Frames in a row without encoder output before the encoder is rebuilt.
pub const MAX_TIMEOUTS_IN_ROW: u64 = 150;

/// Wait between encoder rebuild attempts.
pub const REBUILD_DELAY_MS: u64 = 5000;

/// Per-lane caption counters.
#[derive(Clone, Copy, Debug, PartialEq, Eq)]
pub struct LaneCounters {
    /// Text pieces handed to the caption encoder.
    pub pushed: u64,
    /// Text pieces dropped (backlog cap, full queue).
    pub dropped: u64,
    /// Text pieces waiting for the encoder.
    pub queued: u64,
}

/// A lane's counters with its language.
#[derive(Clone, Debug, PartialEq, Eq)]
pub struct LaneStats {
    pub lang: String,
    pub pushed: u64,
    pub dropped: u64,
    pub queued: u64,
}

/// A piece of text on its way to a lane.
#[derive(Clone, Debug, PartialEq, Eq)]
pub struct Line {
    pub lane: usize,
    pub text: String,
    /// Start a new roll-up row first.
    pub new_row: bool,
    /// When the text may be shown.
    pub due_ms: u64,
}

/// What a line says.
#[verifier::ext_equal]
pub struct Piece {
    pub lane: int,
    pub text: Seq<char>,
    pub new_row: bool,
    pub due_ms: u64,
}

impl View for Line {
    type V = Piece;

    open spec fn view(&self) -> Piece {
        Piece {
            lane: self.lane as int,
            text: self.text@,
            new_row: self.new_row,
            due_ms: self.due_ms,
        }
    }
}

/// What lines say.
pub open spec fn pieces(lines: Seq<Line>) -> Seq<Piece> {
    lines.map_values(|l: Line| l@)
}

/// The first place of a text in a list.
pub open spec fn first_index(list: Seq<Seq<char>>, x: Seq<char>) -> Option<int>
    decreases list.len(),
{
    if list.len() == 0 {
        None
    } else {
        match first_index(list.drop_last(), x) {
            Some(i) => Some(i),
            None => if list.last() == x {
                Some(list.len() - 1)
            } else {
                None
            },
        }
    }
}

/// Takes caption text for the lanes.
pub struct CaptionHandle {
    langs: Vec<String>,
    lines: VecDeque<Line>,
    counters: Vec<LaneCounters>,
    offset_ms: u64,
}

/// What waits, and what was counted.
#[verifier::ext_equal]
pub struct Inbox {
    /// The languages, in lane order.
    pub langs: Seq<Seq<char>>,
    /// Text that waits for the caption stage.
    pub lines: Seq<Piece>,
    pub counters: Seq<LaneCounters>,
    /// Delay before text may be shown.
    pub offset_ms: u64,
}

impl Inbox {
    /// Each lane is counted, and no more text waits than may.
    pub open spec fn wf(self) -> bool {
        self.counters.len() == self.langs.len() && self.lines.len() <= CHANNEL_CAP
    }

    /// One more piece dropped on a lane.
    pub open spec fn dropped(self, lane: int, n: nat) -> Inbox {
        let c = self.counters[lane];
        Inbox {
            counters: self.counters.update(
                lane,
                LaneCounters { dropped: counted(c.dropped, n), ..c },
            ),
            ..self
        }
    }

    /// Whether text for a language is taken, and what waits then.
    pub open spec fn push(
        self,
        lang: Seq<char>,
        text: Seq<char>,
        new_row: bool,
        now_ms: u64,
    ) -> (bool, Inbox) {
        match first_index(self.langs, lang) {
            None => (false, self),
            Some(lane) => if trimmed(text).len() == 0 {
                (true, self)
            } else if self.lines.len() >= CHANNEL_CAP {
                (false, self.dropped(lane, 1))
            } else {
                (
                    true,
                    Inbox {
                        lines: self.lines.push(
                            Piece {
                                lane,
                                text: trimmed(text),
                                new_row,
                                due_ms: (now_ms + self.offset_ms) as u64,
                            },
                        ),
                        ..self
                    },
                )
            },
        }
    }

    /// Everything that waits is dropped.
    pub open spec fn discard(self) -> Inbox
        decreases self.lines.len(),
    {
        if self.lines.len() == 0 {
            self
        } else {
            let lane = self.lines[0].lane;
            let rest = Inbox { lines: self.lines.drop_first(), ..self };
            (if 0 <= lane < self.counters.len() {
                rest.dropped(lane, 1)
            } else {
                rest
            }).discard()
        }
    }
}

impl View for CaptionHandle {
    type V = Inbox;

    closed spec fn view(&self) -> Inbox {
        Inbox {
            langs: texts(self.langs@),
            lines: pieces(self.lines@),
            counters: self.counters@,
            offset_ms: self.offset_ms,
        }
    }
}

fn find_lane(langs: &Vec<String>, lang: &str) -> (r: Option<usize>)
    ensures
        match r {
            Some(i) => first_index(texts(langs@), lang@) == Some(i as int),
            None => first_index(texts(langs@), lang@) is None,
        },
        r matches Some(i) ==> i < langs@.len(),
{
    let wanted = lang.to_owned();
    let ghost all = texts(langs@);
    let mut i: usize = 0;
    while i < langs.len()
        invariant
            i <= langs@.len(),
            all == texts(langs@),
            wanted@ == lang@,
            first_index(all.take(i as int), lang@) is None,
        decreases langs.len() - i,
    {
        proof {
            assert(all.take(i + 1).drop_last() =~= all.take(i as int));
            assert(all.take(i + 1).last() == langs@[i as int]@);
        }
        if langs[i] == wanted {
            proof {
                lemma_first_index_stays(all, lang@, i + 1);
            }
            return Some(i);
        }
        i += 1;
    }
    assert(all.take(all.len() as int) =~= all);
    None
}

proof fn lemma_first_index_stays(list: Seq<Seq<char>>, x: Seq<char>, n: int)
    requires
        0 <= n <= list.len(),
        first_index(list.take(n), x) is Some,
    ensures
        first_index(list, x) == first_index(list.take(n), x),
    decreases list.len() - n,
{
    if n == list.len() {
        assert(list.take(n) =~= list);
    } else {
        assert(list.take(n + 1).drop_last() =~= list.take(n));
        lemma_first_index_stays(list, x, n + 1);
    }
}

impl CaptionHandle {
    /// A handle for lanes, with nothing waiting.
    pub(crate) fn new(specs: &[LaneSpec], offset_ms: u64) -> (r: Self)
        ensures
            r@ == (Inbox {
                langs: specs@.map_values(|s: LaneSpec| s.lang@),
                lines: seq![],
                counters: Seq::new(
                    specs@.len(),
                    |i: int| LaneCounters { pushed: 0, dropped: 0, queued: 0 },
                ),
                offset_ms,
            }),
            r@.wf(),
    {
        let mut langs: Vec<String> = Vec::new();
        let mut counters: Vec<LaneCounters> = Vec::new();
        let mut i: usize = 0;
        while i < specs.len()
            invariant
                i <= specs@.len(),
                langs@.len() == i,
                counters@.len() == i,
                forall|k: int| 0 <= k < i ==> (#[trigger] langs@[k])@ == specs@[k].lang@,
                forall|k: int|
                    0 <= k < i ==> #[trigger] counters@[k] == (LaneCounters {
                        pushed: 0,
                        dropped: 0,
                        queued: 0,
                    }),
            decreases specs.len() - i,
        {
            langs.push(specs[i].lang.clone());
            counters.push(LaneCounters { pushed: 0, dropped: 0, queued: 0 });
            i += 1;
        }
        let r = CaptionHandle { langs, lines: VecDeque::new(), counters, offset_ms };
        proof {
            assert(texts(r.langs@) =~= specs@.map_values(|s: LaneSpec| s.lang@));
            assert(pieces(r.lines@) =~= seq![]);
            assert(r.counters@ =~= Seq::new(
                specs@.len(),
                |i: int| LaneCounters { pushed: 0, dropped: 0, queued: 0 },
            ));
        }
        r
    }

    /// Counts what became of a lane's text, and what still waits for it.
    pub(crate) fn note(&mut self, lane: usize, pushed: Option<bool>, queued: u64)
        requires
            lane < old(self)@.counters.len(),
        ensures
            ({
                let c = old(self)@.counters[lane as int];
                final(self)@ == (Inbox {
                    counters: old(self)@.counters.update(
                        lane as int,
                        LaneCounters {
                            pushed: counted(c.pushed, if pushed == Some(true) {
                                1
                            } else {
                                0
                            }),
                            dropped: counted(c.dropped, if pushed == Some(false) {
                                1
                            } else {
                                0
                            }),
                            queued,
                        },
                    ),
                    ..old(self)@
                })
            }),
    {
        let mut c = self.counters[lane];
        match pushed {
            Some(true) => {
                c.pushed = count(c.pushed, 1);
            },
            Some(false) => {
                c.dropped = count(c.dropped, 1);
            },
            None => {},
        }
        c.queued = queued;
        self.counters.set(lane, c);
    }

    pub(crate) fn drop_on(&mut self, lane: usize, n: u64)
        requires
            lane < old(self)@.counters.len(),
        ensures
            final(self)@ == old(self)@.dropped(lane as int, n as nat),
    {
        let mut c = self.counters[lane];
        c.dropped = count(c.dropped, n);
        self.counters.set(lane, c);
    }

    /// Queues `text` for language `lang`. `new_row` starts a new roll-up row
    /// first. Returns false if the language has no lane or the text was
    /// dropped because the caption stage is not keeping up.
    pub fn push(&mut self, lang: &str, text: &str, new_row: bool, now_ms: u64) -> (r: bool)
        requires
            old(self)@.wf(),
            now_ms + old(self)@.offset_ms <= u64::MAX,
        ensures
            (r, final(self)@) == old(self)@.push(lang@, text@, new_row, now_ms),
            final(self)@.wf(),
    {
        let ghost before = self@;
        let lane = match find_lane(&self.langs, lang) {
            Some(lane) => lane,
            None => return false,
        };
        let chars = to_chars(text);
        let kept = trim(chars.as_slice());
        if kept.len() == 0 {
            return true;
        }
        if self.lines.len() >= CHANNEL_CAP {
            self.drop_on(lane, 1);
            return false;
        }
        let line = Line {
            lane,
            text: from_chars(kept.as_slice()),
            new_row,
            due_ms: now_ms + self.offset_ms,
        };
        self.lines.push_back(line);
        assert(self@.lines =~= before.lines.push(line@));
        true
    }

    /// The configured languages, in lane order.
    pub fn languages(&self) -> (r: &Vec<String>)
        ensures
            texts(r@) == self@.langs,
    {
        &self.langs
    }

    /// The lanes' counters.
    pub fn counters(&self) -> (r: &Vec<LaneCounters>)
        ensures
            r@ == self@.counters,
    {
        &self.counters
    }

    /// Takes the oldest line that waits.
    pub fn receive(&mut self) -> (r: Option<Line>)
        requires
            old(self)@.wf(),
        ensures
            final(self)@.wf(),
            match r {
                Some(line) => {
                    &&& old(self)@.lines.len() > 0
                    &&& line@ == old(self)@.lines[0]
                    &&& final(self)@ == (Inbox {
                        lines: old(self)@.lines.drop_first(),
                        ..old(self)@
                    })
                },
                None => old(self)@.lines.len() == 0 && final(self)@ == old(self)@,
            },
    {
        let ghost before = self@;
        let r = self.lines.pop_front();
        proof {
            if r is Some {
                assert(self@.lines =~= before.lines.drop_first());
            } else {
                assert(self@.lines =~= before.lines);
            }
        }
        r
    }

    /// Drops what waits, so callers see drops, not a stall.
    pub fn discard(&mut self)
        requires
            old(self)@.wf(),
        ensures
            final(self)@ == old(self)@.discard(),
            final(self)@.wf(),
    {
        let ghost target = self@.discard();
        while self.lines.len() > 0
            invariant
                self@.wf(),
                self@.discard() == target,
            decreases self@.lines.len(),
        {
            let ghost before = self@;
            if let Some(line) = self.receive() {
                assert(line.lane == before.lines[0].lane);
                if line.lane < self.counters.len() {
                    self.drop_on(line.lane, 1);
                }
            }
        }
    }
}

/// A lane's language and counters.
pub open spec fn stats_of(lang: Seq<char>, c: LaneCounters) -> (Seq<char>, u64, u64, u64) {
    (lang, c.pushed, c.dropped, c.queued)
}

/// The lanes' counters with their languages.
pub fn lane_stats(langs: &[String], counters: &[LaneCounters]) -> (r: Vec<LaneStats>)
    ensures
        r@.len() == if langs@.len() < counters@.len() {
            langs@.len()
        } else {
            counters@.len()
        },
        forall|i: int|
            0 <= i < r@.len() ==> ((#[trigger] r@[i]).lang@, r@[i].pushed, r@[i].dropped, r@[i].queued)
                == stats_of(langs@[i]@, counters@[i]),
{
    let mut r: Vec<LaneStats> = Vec::new();
    let mut i: usize = 0;
    while i < langs.len() && i < counters.len()
        invariant
            i <= langs@.len(),
            i <= counters@.len(),
            r@.len() == i,
            forall|k: int|
                0 <= k < i ==> (
                    (#[trigger] r@[k]).lang@,
                    r@[k].pushed,
                    r@[k].dropped,
                    r@[k].queued,
                ) == stats_of(langs@[k]@, counters@[k]),
        decreases langs.len() - i,
    {
        let c = counters[i];
        r.push(
            LaneStats {
                lang: langs[i].clone(),
                pushed: c.pushed,
                dropped: c.dropped,
                queued: c.queued,
            },
        );
        i += 1;
    }
    r
}

} // verus!
