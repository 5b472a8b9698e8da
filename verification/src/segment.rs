//! The segmenter: committed words go to the source-language lane as they arrive,
//! and a clause for translation closes on punctuation, after a pause, or at
//! [`MAX_WORDS`] words. Times are milliseconds on a clock that does not go back.
use vstd::prelude::*;

use crate::chars::{alphanumeric, from_chars, to_chars, trim, trimmed};
use crate::counter::{count, counted};
use crate::decimal::push_text;
use crate::types::{Clause, Word};

verus! {

/// A clause never grows beyond this many words.
pub const MAX_WORDS: usize = 24;

/// What the segmenter brings.
#[derive(Clone, Debug, PartialEq)]
pub enum Event {
    /// Text for the source-language lane.
    Source { text: String, new_row: bool },
    /// A closed clause to translate. `new_row`: it starts a new caption row.
    Clause { clause: Clause, new_row: bool },
}

/// A word with its times.
#[verifier::ext_equal]
pub struct Said {
    pub text: Seq<char>,
    pub start_ms: u64,
    pub end_ms: u64,
}

/// What an event says.
pub enum Happening {
    Source { text: Seq<char>, new_row: bool },
    Clause { id: u64, text: Seq<char>, start_ms: u64, end_ms: u64, new_row: bool },
}

/// A word with its times.
pub open spec fn said(w: Word) -> Said {
    Said { text: w.text@, start_ms: w.start_ms, end_ms: w.end_ms }
}

/// Words with their times.
pub open spec fn all_said(list: Seq<Word>) -> Seq<Said> {
    list.map_values(|w: Word| said(w))
}

/// What an event says.
pub open spec fn happening(e: Event) -> Happening {
    match e {
        Event::Source { text, new_row } => Happening::Source { text: text@, new_row },
        Event::Clause { clause, new_row } => Happening::Clause {
            id: clause.id,
            text: clause.text@,
            start_ms: clause.start_ms,
            end_ms: clause.end_ms,
            new_row,
        },
    }
}

/// What events say.
pub open spec fn happenings(list: Seq<Event>) -> Seq<Happening> {
    list.map_values(|e: Event| happening(e))
}

/// Nothing but punctuation.
pub open spec fn is_punctuation(w: Seq<char>) -> bool {
    w.len() > 0 && forall|i: int| 0 <= i < w.len() ==> !alphanumeric(#[trigger] w[i])
}

/// A word behind a text, with a space unless it is bare punctuation.
pub open spec fn appended(s: Seq<char>, w: Seq<char>) -> Seq<char> {
    if s.len() > 0 && !is_punctuation(w) {
        s.push(' ') + w
    } else {
        s + w
    }
}

/// Words as one text.
pub open spec fn run_of(words: Seq<Said>) -> Seq<char>
    decreases words.len(),
{
    if words.len() == 0 {
        seq![]
    } else {
        appended(run_of(words.drop_last()), words.last().text)
    }
}

/// Every word is bare punctuation.
pub open spec fn only_punctuation(words: Seq<Said>) -> bool {
    forall|i: int| 0 <= i < words.len() ==> is_punctuation((#[trigger] words[i]).text)
}

/// The character ends a sentence.
pub open spec fn ends_sentence(c: char) -> bool {
    c == '.' || c == '!' || c == '?'
}

/// The character ends a clause.
pub open spec fn ends_clause(c: char) -> bool {
    ends_sentence(c) || c == ',' || c == ';' || c == ':'
}

/// The segmenter's state.
#[verifier::ext_equal]
pub struct Seg {
    pub max_wait_ms: u64,
    pub next_id: u64,
    /// The open clause.
    pub words: Seq<Said>,
    /// The next source text starts a new row (after a sentence end or pause).
    pub new_row: bool,
    /// The open clause started on a new row.
    pub clause_row: bool,
    /// When the last word came, while a clause is open.
    pub last_word: Option<u64>,
}

/// The state while words come in, and what they bring.
#[verifier::ext_equal]
pub struct Pass {
    pub seg: Seg,
    /// Source text not shown yet, and whether it starts a new row.
    pub chunk: Seq<char>,
    pub chunk_row: bool,
    pub out: Seq<Happening>,
}

impl Seg {
    pub open spec fn fresh(max_wait_ms: u64) -> Seg {
        Seg {
            max_wait_ms,
            next_id: 0,
            words: seq![],
            new_row: true,
            clause_row: true,
            last_word: None,
        }
    }

    /// The open clause, unless it is not worth translating, and the state with
    /// it closed.
    pub open spec fn close(self, sentence_end: bool) -> (Seq<Happening>, Seg) {
        if self.words.len() == 0 {
            (seq![], self)
        } else {
            let worth = !only_punctuation(self.words);
            (
                if worth {
                    seq![
                        Happening::Clause {
                            id: self.next_id,
                            text: run_of(self.words),
                            start_ms: self.words[0].start_ms,
                            end_ms: self.words.last().end_ms,
                            new_row: self.clause_row,
                        },
                    ]
                } else {
                    seq![]
                },
                Seg {
                    next_id: if worth {
                        counted(self.next_id, 1)
                    } else {
                        self.next_id
                    },
                    words: seq![],
                    new_row: sentence_end,
                    clause_row: sentence_end,
                    last_word: None,
                    ..self
                },
            )
        }
    }

    /// The open clause with one more word.
    pub open spec fn with_word(self, w: Said) -> Seg {
        Seg {
            clause_row: if self.words.len() == 0 {
                self.new_row
            } else {
                self.clause_row
            },
            words: self.words.push(w),
            ..self
        }
    }

    /// What newly committed words bring, and the state behind them.
    pub open spec fn hear(self, words: Seq<Said>, now_ms: u64) -> (Seq<Happening>, Seg) {
        Pass { seg: self, chunk: seq![], chunk_row: self.new_row, out: seq![] }.all_words(
            words,
        ).done(now_ms)
    }

    /// What a look at the clock brings: a pause closes the open clause.
    pub open spec fn tick(self, now_ms: u64) -> (Seq<Happening>, Seg) {
        if self.last_word matches Some(t) && (now_ms - t >= self.max_wait_ms || self.max_wait_ms
            == 0) {
            self.close(true)
        } else {
            (seq![], self)
        }
    }

    /// The open clause is not full.
    pub open spec fn wf(self) -> bool {
        self.words.len() < MAX_WORDS
    }
}

impl Pass {
    /// One more word.
    pub open spec fn word(self, w: Said) -> Pass {
        let t = trimmed(w.text);
        if t.len() == 0 {
            self
        } else {
            let seg = self.seg.with_word(Said { text: t, ..w });
            let chunk = appended(self.chunk, t);
            if ends_clause(t.last()) || seg.words.len() >= MAX_WORDS {
                let (closed, after) = seg.close(ends_sentence(t.last()));
                Pass {
                    seg: after,
                    chunk: seq![],
                    chunk_row: after.new_row,
                    out: self.out.push(
                        Happening::Source { text: chunk, new_row: self.chunk_row },
                    ) + closed,
                }
            } else {
                Pass { seg, chunk, ..self }
            }
        }
    }

    /// Words one after the other.
    pub open spec fn all_words(self, words: Seq<Said>) -> Pass
        decreases words.len(),
    {
        if words.len() == 0 {
            self
        } else {
            self.all_words(words.drop_last()).word(words.last())
        }
    }

    /// What was brought, with the text not shown yet.
    pub open spec fn done(self, now_ms: u64) -> (Seq<Happening>, Seg) {
        let more = self.chunk.len() > 0;
        (
            if more {
                self.out.push(Happening::Source { text: self.chunk, new_row: self.chunk_row })
            } else {
                self.out
            },
            Seg {
                new_row: if more {
                    false
                } else {
                    self.seg.new_row
                },
                last_word: if self.seg.words.len() > 0 {
                    Some(now_ms)
                } else {
                    self.seg.last_word
                },
                ..self.seg
            },
        )
    }
}

/// Cuts the stream of committed words into clauses.
pub struct Segmenter {
    max_wait_ms: u64,
    next_id: u64,
    words: Vec<Word>,
    new_row: bool,
    clause_row: bool,
    last_word: Option<u64>,
}

impl View for Segmenter {
    type V = Seg;

    closed spec fn view(&self) -> Seg {
        Seg {
            max_wait_ms: self.max_wait_ms,
            next_id: self.next_id,
            words: all_said(self.words@),
            new_row: self.new_row,
            clause_row: self.clause_row,
            last_word: self.last_word,
        }
    }
}

fn punctuation(w: &str) -> (r: bool)
    ensures
        r == is_punctuation(w@),
{
    let c = to_chars(w);
    let mut i: usize = 0;
    while i < c.len()
        invariant
            i <= c@.len(),
            c@ == w@,
            forall|k: int| 0 <= k < i ==> !alphanumeric(#[trigger] w@[k]),
        decreases c.len() - i,
    {
        if c[i].is_alphanumeric() {
            assert(alphanumeric(w@[i as int]));
            return false;
        }
        i += 1;
    }
    c.len() > 0
}

fn append(s: &mut String, w: &str)
    ensures
        final(s)@ == appended(old(s)@, w@),
{
    if !s.as_str().is_empty() && !punctuation(w) {
        s.push(' ');
    }
    push_text(s, w);
}

impl Segmenter {
    /// A segmenter that closes a clause after a pause of `max_wait_ms`.
    pub fn new(max_wait_ms: u64) -> (r: Self)
        ensures
            r@ == Seg::fresh(max_wait_ms),
            r@.wf(),
    {
        let r = Segmenter {
            max_wait_ms,
            next_id: 0,
            words: Vec::new(),
            new_row: true,
            clause_row: true,
            last_word: None,
        };
        assert(all_said(r.words@) =~= seq![]);
        r
    }

    fn close(&mut self, sentence_end: bool, out: &mut Vec<Event>)
        ensures
            ({
                let (closed, after) = old(self)@.close(sentence_end);
                happenings(final(out)@) == happenings(old(out)@) + closed && final(self)@ == after
            }),
    {
        let ghost before = self@;
        if self.words.len() == 0 {
            assert(happenings(out@) =~= happenings(old(out)@) + before.close(sentence_end).0);
            return;
        }
        let ghost all = all_said(self.words@);
        let mut only = true;
        let mut text = String::new();
        let mut i: usize = 0;
        while i < self.words.len()
            invariant
                i <= self.words@.len(),
                all == all_said(self.words@),
                only == only_punctuation(all.take(i as int)),
                text@ == run_of(all.take(i as int)),
            decreases self.words.len() - i,
        {
            let ghost next = all.take(i + 1);
            proof {
                assert(next.drop_last() =~= all.take(i as int));
                assert(next.last().text == self.words@[i as int].text@);
            }
            let bare = punctuation(self.words[i].text.as_str());
            proof {
                assert forall|k: int| 0 <= k < i implies #[trigger] all.take(i as int)[k]
                    == next[k] by {}
                assert(next[i as int].text == self.words@[i as int].text@);
                if only_punctuation(next) {
                    assert(only_punctuation(all.take(i as int))) by {
                        assert forall|k: int| 0 <= k < i implies is_punctuation(
                            (#[trigger] all.take(i as int)[k]).text,
                        ) by {
                            assert(is_punctuation(next[k].text));
                        }
                    }
                    assert(is_punctuation(next[i as int].text));
                }
            }
            if !bare {
                only = false;
            }
            append(&mut text, self.words[i].text.as_str());
            proof {
                assert(only == only_punctuation(next)) by {
                    if only {
                        assert forall|k: int| 0 <= k < next.len() implies is_punctuation(
                            (#[trigger] next[k]).text,
                        ) by {
                            if k < i {
                                assert(is_punctuation(all.take(i as int)[k].text));
                            }
                        }
                    }
                }
            }
            i += 1;
        }
        assert(all.take(all.len() as int) =~= all);
        let start_ms = self.words[0].start_ms;
        let end_ms = self.words[self.words.len() - 1].end_ms;
        self.words = Vec::new();
        assert(all_said(self.words@) =~= seq![]);
        if !only {
            let e = Event::Clause {
                clause: Clause { id: self.next_id, text, start_ms, end_ms },
                new_row: self.clause_row,
            };
            out.push(e);
            self.next_id = count(self.next_id, 1);
            assert(happenings(out@) =~= happenings(old(out)@) + seq![happening(e)]);
        } else {
            assert(happenings(out@) =~= happenings(old(out)@) + seq![]);
        }
        self.new_row = sentence_end;
        self.clause_row = sentence_end;
        self.last_word = None;
    }

    /// Handles newly committed words.
    pub fn words(&mut self, ws: &[Word], now_ms: u64) -> (out: Vec<Event>)
        requires
            old(self)@.wf(),
        ensures
            (happenings(out@), final(self)@) == old(self)@.hear(all_said(ws@), now_ms),
            final(self)@.wf(),
    {
        let mut out: Vec<Event> = Vec::new();
        let mut chunk = String::new();
        let mut chunk_row = self.new_row;
        let mut i: usize = 0;
        let ghost all = all_said(ws@);
        let ghost start = Pass {
            seg: self@,
            chunk: seq![],
            chunk_row: self@.new_row,
            out: seq![],
        };
        assert(happenings(out@) =~= seq![]);
        assert(chunk@ =~= seq![]);
        while i < ws.len()
            invariant
                i <= ws@.len(),
                all == all_said(ws@),
                self@.wf(),
                (Pass { seg: self@, chunk: chunk@, chunk_row, out: happenings(out@) })
                    == start.all_words(all.take(i as int)),
            decreases ws.len() - i,
        {
            let ghost pass = start.all_words(all.take(i as int));
            let w = &ws[i];
            proof {
                assert(all.take(i + 1).drop_last() =~= all.take(i as int));
                assert(all.take(i + 1).last() == said(*w));
            }
            let chars = to_chars(w.text.as_str());
            let t = trim(chars.as_slice());
            i += 1;
            if t.len() == 0 {
                continue;
            }
            let ghost held = self@;
            if self.words.len() == 0 {
                self.clause_row = self.new_row;
            }
            let text = from_chars(t.as_slice());
            append(&mut chunk, text.as_str());
            let ghost kept = Said { text: t@, ..said(*w) };
            self.words.push(Word { text, start_ms: w.start_ms, end_ms: w.end_ms });
            assert(self@.words =~= held.words.push(kept));
            let last = t[t.len() - 1];
            let sentence = last == '.' || last == '!' || last == '?';
            if sentence || last == ',' || last == ';' || last == ':' || self.words.len()
                >= MAX_WORDS {
                let ghost shown = Happening::Source { text: chunk@, new_row: chunk_row };
                let ghost sent = happenings(out@);
                out.push(Event::Source { text: chunk, new_row: chunk_row });
                chunk = String::new();
                assert(happenings(out@) =~= sent.push(shown));
                self.close(sentence, &mut out);
                chunk_row = self.new_row;
                assert(chunk@ =~= seq![]);
            }
        }
        assert(all.take(all.len() as int) =~= all);
        if !chunk.as_str().is_empty() {
            let ghost sent = happenings(out@);
            let ghost shown = Happening::Source { text: chunk@, new_row: chunk_row };
            out.push(Event::Source { text: chunk, new_row: chunk_row });
            assert(happenings(out@) =~= sent.push(shown));
            self.new_row = false;
        }
        if self.words.len() > 0 {
            self.last_word = Some(now_ms);
        }
        out
    }

    /// Closes the open clause after a pause.
    pub fn tick(&mut self, now_ms: u64) -> (out: Vec<Event>)
        requires
            old(self)@.wf(),
        ensures
            (happenings(out@), final(self)@) == old(self)@.tick(now_ms),
            final(self)@.wf(),
    {
        let mut out: Vec<Event> = Vec::new();
        assert(happenings(out@) =~= seq![]);
        if let Some(t) = self.last_word {
            let since: u64 = if now_ms > t {
                now_ms - t
            } else {
                0
            };
            if since >= self.max_wait_ms {
                let ghost closed = self@.close(true).0;
                self.close(true, &mut out);
                assert(happenings(out@) =~= closed);
            }
        }
        out
    }
}

} // verus!
