//! A scripted worker that speaks the worker protocol without any models, so the
//! supervisor and the media side can be tested.
//!
//! As speech recogniser it answers every audio frame with one scripted word
//! spanning the frame; as translator it answers with `[lang] text`. It can be
//! told to crash or to hang after a number of frames, and to write garbage.
use vstd::prelude::*;

use crate::decimal::push_text;
use crate::segment::{said, Said};
use crate::types::{Clause, Translation, Word};

verus! {

/// What the worker stands in for.
#[derive(Clone, Copy, Debug, PartialEq, Eq, Structural)]
pub enum Mode {
    Asr,
    Mt,
}

/// Malformed output.
#[derive(Clone, Copy, Debug, PartialEq, Eq, Structural)]
pub enum Garbage {
    /// Well-framed but invalid frames (bad JSON, unknown kind, wrong direction).
    Soft,
    /// Bytes that break the framing.
    Hard,
}

/// What came in.
#[derive(Clone, Debug, PartialEq)]
pub enum Input {
    Shutdown,
    Pcm { start_ms: u64, samples: usize },
    Translate { clause: Clause, langs: Vec<String> },
    /// Any other frame.
    Other,
}

/// What the worker does.
#[derive(Clone, Debug, PartialEq)]
pub enum Step {
    /// Exit with a status that says so.
    Crash,
    /// Stop heartbeats and stop reading.
    Hang,
    /// Exit successfully.
    Exit,
    /// Report a word.
    Words(Word),
    /// Report translations.
    Translated(Vec<Translation>),
    /// Say nothing.
    Nothing,
}

/// The script.
#[derive(Clone, Copy, Debug, PartialEq, Eq)]
pub struct Script {
    pub crash_after: Option<u64>,
    pub hang_after: Option<u64>,
    /// Frames read so far.
    pub frames: u64,
    /// Words said so far.
    pub word: u64,
}

/// The scripted words, in turn.
pub open spec fn script_word(k: int) -> Seq<char> {
    let i = k % 6;
    if i == 0 {
        "alpha"@
    } else if i == 1 {
        "bravo"@
    } else if i == 2 {
        "charlie"@
    } else if i == 3 {
        "delta"@
    } else if i == 4 {
        "echo"@
    } else {
        "foxtrot"@
    }
}

/// The scripted translation.
pub open spec fn scripted(text: Seq<char>, lang: Seq<char>) -> Seq<char> {
    "["@ + lang + "] "@ + text
}

/// The translation answers a request.
pub open spec fn answers(t: Translation, clause: Clause, lang: Seq<char>) -> bool {
    &&& t.clause_id == clause.id
    &&& t.lang@ == lang
    &&& t.text@ == scripted(clause.text@, lang)
    &&& t.elapsed_ms == 0
}

impl Script {
    /// More frames have come than the limit allows.
    pub open spec fn beyond(limit: Option<u64>, frames: int) -> bool {
        limit matches Some(n) && frames > n
    }

    pub fn new(crash_after: Option<u64>, hang_after: Option<u64>) -> (r: Self)
        ensures
            r == (Script { crash_after, hang_after, frames: 0, word: 0 }),
    {
        Script { crash_after, hang_after, frames: 0, word: 0 }
    }

    /// Answers one frame.
    pub fn step(&mut self, input: &Input) -> (r: Step)
        requires
            old(self).frames < u64::MAX,
            old(self).word < u64::MAX,
            *input matches Input::Pcm { start_ms, samples } ==> start_ms + samples as int / 16
                <= u64::MAX,
        ensures
            final(self).crash_after == old(self).crash_after,
            final(self).hang_after == old(self).hang_after,
            final(self).frames == old(self).frames + 1,
            final(self).word == old(self).word + if r is Words {
                1int
            } else {
                0int
            },
            if Script::beyond(old(self).crash_after, final(self).frames as int) {
                r is Crash
            } else if Script::beyond(old(self).hang_after, final(self).frames as int) {
                r is Hang
            } else {
                match *input {
                    Input::Shutdown => r is Exit,
                    Input::Pcm { start_ms, samples } => if samples > 0 {
                        r matches Step::Words(w) && said(w) == (Said {
                            text: script_word(old(self).word as int),
                            start_ms,
                            end_ms: (start_ms + samples as int / 16) as u64,
                        })
                    } else {
                        r is Nothing
                    },
                    Input::Translate { clause, langs } => r matches Step::Translated(list)
                        && list@.len() == langs@.len() && forall|i: int|
                        0 <= i < langs@.len() ==> answers(
                            #[trigger] list@[i],
                            clause,
                            langs@[i]@,
                        ),
                    Input::Other => r is Nothing,
                }
            },
    {
        self.frames = self.frames + 1;
        if let Some(n) = self.crash_after {
            if self.frames > n {
                return Step::Crash;
            }
        }
        if let Some(n) = self.hang_after {
            if self.frames > n {
                return Step::Hang;
            }
        }
        match input {
            Input::Shutdown => Step::Exit,
            Input::Pcm { start_ms, samples } => {
                if *samples == 0 {
                    return Step::Nothing;
                }
                let text = word_text(self.word);
                self.word = self.word + 1;
                Step::Words(
                    Word {
                        text,
                        start_ms: *start_ms,
                        end_ms: *start_ms + *samples as u64 / 16,
                    },
                )
            },
            Input::Translate { clause, langs } => {
                let mut list: Vec<Translation> = Vec::new();
                let mut i: usize = 0;
                while i < langs.len()
                    invariant
                        i <= langs@.len(),
                        list@.len() == i,
                        forall|k: int|
                            0 <= k < i ==> answers(#[trigger] list@[k], *clause, langs@[k]@),
                    decreases langs.len() - i,
                {
                    let mut text = String::new();
                    push_text(&mut text, "[");
                    push_text(&mut text, langs[i].as_str());
                    push_text(&mut text, "] ");
                    push_text(&mut text, clause.text.as_str());
                    assert(text@ =~= scripted(clause.text@, langs@[i as int]@));
                    list.push(
                        Translation {
                            clause_id: clause.id,
                            lang: langs[i].clone(),
                            text,
                            elapsed_ms: 0,
                        },
                    );
                    i += 1;
                }
                Step::Translated(list)
            },
            Input::Other => Step::Nothing,
        }
    }
}

fn word_text(k: u64) -> (r: String)
    ensures
        r@ == script_word(k as int),
{
    let i: u64 = k % 6;
    let w = if i == 0 {
        "alpha"
    } else if i == 1 {
        "bravo"
    } else if i == 2 {
        "charlie"
    } else if i == 3 {
        "delta"
    } else if i == 4 {
        "echo"
    } else {
        "foxtrot"
    };
    w.to_owned()
}

/// The name a worker reports.
pub fn worker_name(mode: Mode) -> (r: String)
    ensures
        r@ == match mode {
            Mode::Asr => "fake-asr"@,
            Mode::Mt => "fake-mt"@,
        },
{
    match mode {
        Mode::Asr => "fake-asr".to_owned(),
        Mode::Mt => "fake-mt".to_owned(),
    }
}

} // verus!
