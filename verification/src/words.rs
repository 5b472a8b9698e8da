//! Words out of a streaming recogniser's tokens: grouping, committing, and the
//! gate that opens and closes speech segments.
use vstd::prelude::*;

use crate::chars::{copy_range, from_chars, starts_with, texts, to_chars};
use crate::clock::last_entries;
use crate::numbers::{parse_unsigned, unsigned_value};

verus! {

/// Marks the start of a word in a token, as a space does.
pub const WORD_MARK: char = '\u{2581}';

/// A word and the tokens it is made of, first and last.
#[derive(Clone, Debug, PartialEq, Eq)]
pub struct RawWord {
    pub text: String,
    pub first: usize,
    pub last: usize,
}

/// A word's text, its first token and its last.
#[verifier::ext_equal]
pub struct Grouped {
    pub text: Seq<char>,
    pub first: int,
    pub last: int,
}

impl View for RawWord {
    type V = Grouped;

    open spec fn view(&self) -> Grouped {
        Grouped { text: self.text@, first: self.first as int, last: self.last as int }
    }
}

/// The character begins a word.
pub open spec fn is_mark(c: char) -> bool {
    c == ' ' || c == WORD_MARK
}

/// The token without the marks it starts with.
pub open spec fn clean(token: Seq<char>) -> Seq<char>
    decreases token.len(),
{
    if token.len() > 0 && is_mark(token[0]) {
        clean(token.drop_first())
    } else {
        token
    }
}

/// The token starts with a mark.
pub open spec fn starts_word(token: Seq<char>) -> bool {
    token.len() > 0 && is_mark(token[0])
}

/// Language tags and other specials: `<...>`.
pub open spec fn special(token: Seq<char>) -> bool {
    let c = clean(token);
    c.len() > 0 && c[0] == '<' && c.last() == '>'
}

/// The words in tokens, and whether the next token begins a word anyway.
#[verifier::ext_equal]
pub struct Grouping {
    pub words: Seq<Grouped>,
    pub boundary: bool,
}

impl Grouping {
    /// One more token.
    pub open spec fn token(self, token: Seq<char>, at: int) -> Grouping {
        let c = clean(token);
        if special(token) {
            Grouping { boundary: true, ..self }
        } else if c.len() == 0 {
            Grouping { boundary: self.boundary || starts_word(token), ..self }
        } else if starts_word(token) || self.boundary || self.words.len() == 0 {
            Grouping {
                words: self.words.push(Grouped { text: c, first: at, last: at }),
                boundary: false,
            }
        } else {
            let w = self.words.last();
            Grouping {
                words: self.words.drop_last().push(Grouped { text: w.text + c, last: at, ..w }),
                boundary: false,
            }
        }
    }
}

/// The grouping of tokens.
pub open spec fn grouping(tokens: Seq<Seq<char>>) -> Grouping
    decreases tokens.len(),
{
    if tokens.len() == 0 {
        Grouping { words: seq![], boundary: true }
    } else {
        grouping(tokens.drop_last()).token(tokens.last(), tokens.len() - 1)
    }
}

/// The words of a list.
pub open spec fn raw_words(list: Seq<RawWord>) -> Seq<Grouped> {
    list.map_values(|w: RawWord| w@)
}

fn cleaned(token: &Vec<char>) -> (r: Vec<char>)
    ensures
        r@ == clean(token@),
{
    let mut i: usize = 0;
    assert(token@.skip(0) =~= token@);
    while i < token.len() && (token[i] == ' ' || token[i] == WORD_MARK)
        invariant
            i <= token@.len(),
            clean(token@) == clean(token@.skip(i as int)),
        decreases token.len() - i,
    {
        assert(token@.skip(i as int).drop_first() =~= token@.skip(i + 1));
        i += 1;
    }
    let ghost rest = token@.skip(i as int);
    assert(clean(rest) == rest);
    let mut r: Vec<char> = Vec::new();
    while i < token.len()
        invariant
            i <= token@.len(),
            r@ + token@.skip(i as int) == rest,
        decreases token.len() - i,
    {
        let ghost before = r@;
        r.push(token[i]);
        assert(r@ + token@.skip(i + 1) =~= before + token@.skip(i as int));
        i += 1;
    }
    assert(r@ =~= rest);
    r
}

fn joined(a: &str, b: &Vec<char>) -> (r: String)
    ensures
        r@ == a@ + b@,
{
    let mut chars = to_chars(a);
    let mut i: usize = 0;
    while i < b.len()
        invariant
            i <= b@.len(),
            chars@ == a@ + b@.take(i as int),
        decreases b.len() - i,
    {
        chars.push(b[i]);
        assert(chars@ =~= a@ + b@.take(i + 1));
        i += 1;
    }
    assert(b@.take(b@.len() as int) =~= b@);
    from_chars(chars.as_slice())
}

/// Groups sentencepiece tokens into words: a token starting with a space or
/// U+2581 begins a new word.
pub fn group_words(tokens: &[String]) -> (r: Vec<RawWord>)
    ensures
        raw_words(r@) == grouping(texts(tokens@)).words,
{
    let mut words: Vec<RawWord> = Vec::new();
    let mut boundary = true;
    let mut i: usize = 0;
    let ghost all = texts(tokens@);
    assert(raw_words(words@) =~= grouping(all.take(0)).words);
    while i < tokens.len()
        invariant
            i <= tokens@.len(),
            all == texts(tokens@),
            (Grouping { words: raw_words(words@), boundary }) == grouping(all.take(i as int)),
        decreases tokens.len() - i,
    {
        let ghost now = grouping(all.take(i as int));
        let ghost before = words@;
        proof {
            assert(all.take(i + 1).drop_last() =~= all.take(i as int));
            assert(all.take(i + 1).last() == tokens@[i as int]@);
        }
        let token = to_chars(tokens[i].as_str());
        let starts = token.len() > 0 && (token[0] == ' ' || token[0] == WORD_MARK);
        let text = cleaned(&token);
        if text.len() > 0 && text[0] == '<' && text[text.len() - 1] == '>' {
            boundary = true;
        } else if text.len() == 0 {
            boundary = boundary || starts;
        } else {
            if starts || boundary || words.len() == 0 {
                words.push(
                    RawWord { text: from_chars(text.as_slice()), first: i, last: i },
                );
            } else {
                let w = words.pop().unwrap();
                assert(w == before.last());
                let longer = joined(w.text.as_str(), &text);
                words.push(RawWord { text: longer, first: w.first, last: i });
            }
            boundary = false;
        }
        proof {
            assert(raw_words(words@) =~= now.token(token@, i as int).words);
        }
        i += 1;
    }
    assert(all.take(all.len() as int) =~= all);
    words
}

/// The texts of words one behind the other.
pub open spec fn run_together(words: Seq<Grouped>) -> Seq<char>
    decreases words.len(),
{
    if words.len() == 0 {
        seq![]
    } else {
        run_together(words.drop_last()) + words.last().text
    }
}

/// The text of tokens without marks and specials.
pub open spec fn plain_text(tokens: Seq<Seq<char>>) -> Seq<char>
    decreases tokens.len(),
{
    if tokens.len() == 0 {
        seq![]
    } else {
        plain_text(tokens.drop_last()) + (if special(tokens.last()) {
            seq![]
        } else {
            clean(tokens.last())
        })
    }
}

/// Grouping loses nothing: the words hold the tokens' text, in order, and each
/// word holds some of it and lies behind the one before it.
pub proof fn law_grouping_keeps_the_text(tokens: Seq<Seq<char>>)
    ensures
        run_together(grouping(tokens).words) == plain_text(tokens),
        forall|i: int|
            0 <= i < grouping(tokens).words.len() ==> {
                let w = #[trigger] grouping(tokens).words[i];
                w.text.len() > 0 && 0 <= w.first <= w.last < tokens.len()
            },
        forall|i: int, j: int|
            0 <= i < j < grouping(tokens).words.len() ==> grouping(tokens).words[i].last
                < grouping(tokens).words[j].first,
    decreases tokens.len(),
{
    if tokens.len() > 0 {
        let head = tokens.drop_last();
        law_grouping_keeps_the_text(head);
        let before = grouping(head).words;
        let after = grouping(tokens).words;
        let c = clean(tokens.last());
        if special(tokens.last()) || c.len() == 0 {
            assert(plain_text(tokens) =~= plain_text(head));
        } else if starts_word(tokens.last()) || grouping(head).boundary || before.len() == 0 {
            assert(after.drop_last() =~= before);
        } else {
            assert(after.drop_last() =~= before.drop_last());
            assert(run_together(after) =~= run_together(before) + c);
            assert(before[before.len() - 1].text.len() > 0);
        }
    }
}


/// Decides which words of a stream are final.
///
/// A word is committed once the next word has started, or once
/// `final_word_ms` of decoded audio produced no new token.
pub struct Committer {
    chunk_ms: u32,
    final_word_ms: u32,
    done: usize,
    partial_len: usize,
    partial_last: Option<String>,
    idle_steps: u32,
    committed_last: Option<String>,
}

/// What the committer remembers of its stream.
#[verifier::ext_equal]
pub struct Commits {
    /// Audio per decode step.
    pub chunk_ms: u32,
    /// Quiet audio that ends the last word.
    pub final_word_ms: u32,
    /// Words already committed.
    pub done: int,
    /// How many words there were last time, and the last of them.
    pub partial_len: int,
    pub partial_last: Option<Seq<char>>,
    /// Decode steps since the words last changed.
    pub idle_steps: int,
    /// The last committed word, as committed.
    pub committed_last: Option<Seq<char>>,
}

/// What a step commits.
#[derive(Clone, Debug, PartialEq, Eq)]
pub struct Commit {
    /// What the last committed word has gained, usually punctuation; a word of
    /// its own behind it.
    pub suffix: Option<String>,
    /// The words newly committed: `from..to`.
    pub from: usize,
    pub to: usize,
}

/// A step's suffix and range of words.
#[verifier::ext_equal]
pub struct Committed {
    pub suffix: Option<Seq<char>>,
    pub from: int,
    pub to: int,
}

impl View for Commit {
    type V = Committed;

    open spec fn view(&self) -> Committed {
        Committed { suffix: text_of(self.suffix), from: self.from as int, to: self.to as int }
    }
}

/// The text, if there is one.
pub open spec fn text_of(s: Option<String>) -> Option<Seq<char>> {
    match s {
        Some(t) => Some(t@),
        None => None,
    }
}

impl Commits {
    /// A new stream.
    pub open spec fn fresh(chunk_ms: u32, final_word_ms: u32) -> Commits {
        Commits {
            chunk_ms,
            final_word_ms,
            done: 0,
            partial_len: 0,
            partial_last: None,
            idle_steps: 0,
            committed_last: None,
        }
    }

    /// The last of the words.
    pub open spec fn last_of(words: Seq<Seq<char>>) -> Option<Seq<char>> {
        if words.len() > 0 {
            Some(words.last())
        } else {
            None
        }
    }

    /// Decode steps without change, after `steps` more.
    pub open spec fn idle_after(self, steps: u32, words: Seq<Seq<char>>) -> int {
        if words.len() != self.partial_len || Commits::last_of(words) != self.partial_last {
            0
        } else if self.idle_steps + steps > u32::MAX {
            u32::MAX as int
        } else {
            self.idle_steps + steps
        }
    }

    /// Enough decoded audio brought nothing new.
    pub open spec fn quiet(self, steps: u32, words: Seq<Seq<char>>) -> bool {
        self.idle_after(steps, words) * self.chunk_ms >= self.final_word_ms
    }

    /// How many words are final.
    pub open spec fn final_words(self, steps: u32, words: Seq<Seq<char>>, all: bool) -> int {
        if all || self.quiet(steps, words) {
            words.len() as int
        } else if words.len() == 0 {
            0
        } else {
            words.len() - 1
        }
    }

    /// What the last committed word has gained since.
    pub open spec fn gained(self, words: Seq<Seq<char>>) -> Option<Seq<char>> {
        if 0 < self.done <= words.len() && self.committed_last is Some {
            let word = words[self.done - 1];
            let prev = self.committed_last->0;
            if word.len() > prev.len() && prev.is_prefix_of(word) {
                Some(word.skip(prev.len() as int))
            } else {
                None
            }
        } else {
            None
        }
    }

    /// What a step commits, and the state behind it.
    pub open spec fn step(self, steps: u32, words: Seq<Seq<char>>, all: bool) -> (
        Committed,
        Commits,
    ) {
        let upto = self.final_words(steps, words, all);
        let done = if upto > self.done {
            upto
        } else {
            self.done
        };
        (
            Committed { suffix: self.gained(words), from: self.done, to: done },
            Commits {
                done,
                partial_len: words.len() as int,
                partial_last: Commits::last_of(words),
                idle_steps: self.idle_after(steps, words),
                committed_last: if upto > self.done {
                    Some(words[upto - 1])
                } else if self.gained(words) is Some {
                    Some(words[self.done - 1])
                } else {
                    self.committed_last
                },
                ..self
            },
        )
    }
}

impl View for Committer {
    type V = Commits;

    closed spec fn view(&self) -> Commits {
        Commits {
            chunk_ms: self.chunk_ms,
            final_word_ms: self.final_word_ms,
            done: self.done as int,
            partial_len: self.partial_len as int,
            partial_last: text_of(self.partial_last),
            idle_steps: self.idle_steps as int,
            committed_last: text_of(self.committed_last),
        }
    }
}

fn same_word(a: &Option<String>, b: &Option<String>) -> (r: bool)
    ensures
        r == (text_of(*a) == text_of(*b)),
{
    match (a, b) {
        (Some(x), Some(y)) => *x == *y,
        (None, None) => true,
        _ => false,
    }
}

fn suffix_of(word: &str, prev: &str) -> (r: Option<String>)
    ensures
        text_of(r) == if word@.len() > prev@.len() && prev@.is_prefix_of(word@) {
            Some(word@.skip(prev@.len() as int))
        } else {
            None
        },
{
    let w = to_chars(word);
    let p = to_chars(prev);
    if w.len() > p.len() && starts_with(w.as_slice(), p.as_slice()) {
        let rest = copy_range(w.as_slice(), p.len(), w.len());
        assert(rest@ =~= word@.skip(prev@.len() as int));
        Some(from_chars(rest.as_slice()))
    } else {
        None
    }
}

impl Committer {
    /// Opens a stream.
    pub fn new(chunk_ms: u32, final_word_ms: u32) -> (r: Self)
        ensures
            r@ == Commits::fresh(chunk_ms, final_word_ms),
    {
        Committer {
            chunk_ms,
            final_word_ms,
            done: 0,
            partial_len: 0,
            partial_last: None,
            idle_steps: 0,
            committed_last: None,
        }
    }

    /// Takes the words of the stream after `steps` more decode steps, and
    /// commits finished words (or all, if `all`).
    pub fn step(&mut self, steps: u32, words: &[String], all: bool) -> (r: Commit)
        ensures
            (r@, final(self)@) == old(self)@.step(steps, texts(words@), all),
    {
        let ghost list = texts(words@);
        let n = words.len();
        let last: Option<String> = if n > 0 {
            Some(words[n - 1].clone())
        } else {
            None
        };
        assert(text_of(last) == Commits::last_of(list));
        if n != self.partial_len || !same_word(&last, &self.partial_last) {
            self.idle_steps = 0;
        } else if steps > u32::MAX - self.idle_steps {
            self.idle_steps = u32::MAX;
        } else {
            self.idle_steps = self.idle_steps + steps;
        }
        self.partial_len = n;
        self.partial_last = last;
        assert(self.idle_steps * self.chunk_ms <= u32::MAX * u32::MAX) by (nonlinear_arith)
            requires
                0 <= self.idle_steps <= u32::MAX,
                0 <= self.chunk_ms <= u32::MAX,
        ;
        let quiet = self.idle_steps as u64 * self.chunk_ms as u64 >= self.final_word_ms as u64;
        let upto: usize = if all || quiet {
            n
        } else if n == 0 {
            0
        } else {
            n - 1
        };
        let mut suffix: Option<String> = None;
        if 0 < self.done && self.done <= n {
            if let Some(prev) = &self.committed_last {
                suffix = suffix_of(words[self.done - 1].as_str(), prev.as_str());
                assert(list[self.done - 1] == words@[self.done - 1]@);
            }
        }
        assert(text_of(suffix) == old(self)@.gained(list));
        if suffix.is_some() {
            self.committed_last = Some(words[self.done - 1].clone());
        }
        let from = self.done;
        if upto > from {
            self.done = upto;
            self.committed_last = Some(words[upto - 1].clone());
        }
        Commit { suffix, from, to: self.done }
    }
}

/// Output is append-only: each step commits the words right behind those
/// committed before, and only words that are final: the next one has started,
/// the stream is quiet, or all are asked for.
pub proof fn law_commits_are_append_only(
    c: Commits,
    steps: u32,
    words: Seq<Seq<char>>,
    all: bool,
    k: int,
)
    requires
        0 <= c.done,
    ensures
        ({
            let (out, after) = c.step(steps, words, all);
            &&& out.from == c.done
            &&& out.to == after.done
            &&& out.from <= out.to
            &&& out.from <= k < out.to ==> k < words.len() && (k + 1 < words.len() || all
                || c.quiet(steps, words))
            &&& all && c.done <= words.len() ==> out.to == words.len()
        }),
{
}

/// Speech started with the audio kept so far, ended, or neither.
#[derive(Clone, Debug, PartialEq, Eq)]
pub enum VadEvent<T> {
    Same,
    Start(Vec<T>),
    End,
}

/// Tells where speech starts and ends, and keeps the audio just before it so
/// the first word is not clipped.
pub struct VadGate<T> {
    in_speech: bool,
    preroll: Vec<T>,
    preroll_len: usize,
}

/// What the detector remembers.
#[verifier::ext_equal]
pub struct Gate<T> {
    pub in_speech: bool,
    pub preroll: Seq<T>,
    pub preroll_len: nat,
}

/// An event and the audio it carries.
pub enum GateEvent<T> {
    Same,
    Start(Seq<T>),
    End,
}

impl<T> View for VadEvent<T> {
    type V = GateEvent<T>;

    open spec fn view(&self) -> GateEvent<T> {
        match *self {
            VadEvent::Same => GateEvent::Same,
            VadEvent::Start(audio) => GateEvent::Start(audio@),
            VadEvent::End => GateEvent::End,
        }
    }
}

impl<T> Gate<T> {
    /// The audio kept with one more block: the last of it.
    pub open spec fn kept(self, block: Seq<T>) -> Seq<T> {
        last_entries(self.preroll + block, self.preroll_len)
    }

    /// The event of a block with or without speech, and the state behind it.
    pub open spec fn feed(self, block: Seq<T>, speech: bool) -> (GateEvent<T>, Gate<T>) {
        if self.in_speech {
            if speech {
                (GateEvent::Same, self)
            } else {
                (GateEvent::End, Gate { in_speech: false, ..self })
            }
        } else if speech {
            (
                GateEvent::Start(self.kept(block)),
                Gate { in_speech: true, preroll: seq![], ..self },
            )
        } else {
            (GateEvent::Same, Gate { preroll: self.kept(block), ..self })
        }
    }
}

impl<T> View for VadGate<T> {
    type V = Gate<T>;

    closed spec fn view(&self) -> Gate<T> {
        Gate {
            in_speech: self.in_speech,
            preroll: self.preroll@,
            preroll_len: self.preroll_len as nat,
        }
    }
}

impl<T: Copy> VadGate<T> {
    /// Outside speech; the last `preroll_len` samples are kept.
    pub fn new(preroll_len: usize) -> (r: Self)
        ensures
            r@ == (Gate::<T> { in_speech: false, preroll: seq![], preroll_len: preroll_len as nat }),
    {
        let r = VadGate { in_speech: false, preroll: Vec::new(), preroll_len };
        assert(r.preroll@ =~= seq![]);
        r
    }

    /// Takes a block of audio, in which the detector heard speech or not.
    pub fn feed(&mut self, block: &[T], speech: bool) -> (r: VadEvent<T>)
        requires
            old(self)@.preroll.len() + block@.len() <= usize::MAX,
        ensures
            (r@, final(self)@) == old(self)@.feed(block@, speech),
    {
        if !self.in_speech {
            let total: usize = self.preroll.len() + block.len();
            let drop: usize = if total > self.preroll_len {
                total - self.preroll_len
            } else {
                0
            };
            let ghost joined = self.preroll@ + block@;
            let mut kept: Vec<T> = Vec::new();
            let mut i: usize = drop;
            while i < total
                invariant
                    drop <= i <= total,
                    joined == self.preroll@ + block@,
                    total == joined.len(),
                    kept@ == joined.subrange(drop as int, i as int),
                decreases total - i,
            {
                let x = if i < self.preroll.len() {
                    self.preroll[i]
                } else {
                    block[i - self.preroll.len()]
                };
                kept.push(x);
                assert(kept@ =~= joined.subrange(drop as int, i + 1));
                i += 1;
            }
            assert(kept@ =~= self@.kept(block@));
            if speech {
                self.in_speech = true;
                self.preroll = Vec::new();
                assert(self.preroll@ =~= seq![]);
                VadEvent::Start(kept)
            } else {
                self.preroll = kept;
                VadEvent::Same
            }
        } else if speech {
            VadEvent::Same
        } else {
            self.in_speech = false;
            VadEvent::End
        }
    }

    /// Forgets everything heard.
    pub fn reset(&mut self)
        ensures
            final(self)@ == (Gate { in_speech: false, preroll: seq![], ..old(self)@ }),
    {
        self.in_speech = false;
        self.preroll = Vec::new();
        assert(self.preroll@ =~= seq![]);
    }
}

/// The chunk sizes a model can be exported with.
pub open spec fn is_chunk(v: int) -> bool {
    v == 80 || v == 160 || v == 320 || v == 560 || v == 1120
}

/// Reads a chunk size.
pub fn parse_chunk(s: &str) -> (r: Result<u32, String>)
    ensures
        match r {
            Ok(v) => unsigned_value(s@, 10) == Some(v as u64) && is_chunk(v as int),
            Err(e) => {
                &&& e@ == "one of 80, 160, 320, 560, 1120 (must match the model export)"@
                &&& unsigned_value(s@, 10) matches Some(v) ==> !is_chunk(v as int)
            },
        },
{
    let chars = to_chars(s);
    match parse_unsigned(chars.as_slice(), 10) {
        Some(v) => if v == 80 || v == 160 || v == 320 || v == 560 || v == 1120 {
            return Ok(v as u32);
        },
        None => {},
    }
    Err("one of 80, 160, 320, 560, 1120 (must match the model export)".to_owned())
}

} // verus!
