//! Around the translator: sentences, limits, and what each request is answered.
use vstd::prelude::*;

use crate::chars::{
    copy_range, from_chars, spaced_words, split_whitespace, texts, to_chars, trim, trimmed,
    trimmed_end, trimmed_start, white_space,
};
use crate::decimal::{decimal, push_decimal, push_text};

verus! {

/// Longest clause accepted, in bytes; longer input is refused, not truncated.
pub const MAX_INPUT_BYTES: usize = 4096;

/// Whether `char::is_uppercase` says that a character is an upper-case letter in
/// the sense of Unicode.
pub uninterp spec fn uppercase(c: char) -> bool;

/// `char::is_uppercase`: a property of the character alone. Among the ASCII
/// characters these are the capital letters.
pub assume_specification[ char::is_uppercase ](c: char) -> (r: bool)
    ensures
        r == uppercase(c),
        (c as u32) < 0x80 ==> r == (0x41 <= c as u32 <= 0x5A),
;

/// The decode length cap for so many source words.
pub open spec fn decode_cap(words: int) -> int {
    if 4 * words + 16 < 256 {
        4 * words + 16
    } else {
        256
    }
}

/// Decode length cap: about three subwords per source word plus slack, so a
/// model that starts repeating itself stops quickly.
pub fn max_decoding_length(src_words: usize) -> (r: usize)
    ensures
        r == decode_cap(src_words as int),
{
    if src_words < 60 {
        4 * src_words + 16
    } else {
        256
    }
}

/// The decode length cap for a text.
pub fn decoding_length(text: &str) -> (r: usize)
    ensures
        r == decode_cap(spaced_words(text@).len() as int),
{
    let chars = to_chars(text);
    let words = split_whitespace(chars.as_slice());
    max_decoding_length(words.len())
}

/// A sentence can begin with the character.
pub open spec fn opens_sentence(c: char) -> bool {
    uppercase(c) || c == '\u{BF}' || c == '\u{A1}' || c == '"' || c == '\u{201C}'
}

/// A sentence may end at a place: its mark is followed by white space and then
/// by something a sentence begins with.
pub open spec fn may_break(s: Seq<char>, i: int) -> bool {
    &&& s[i] == '.' || s[i] == '!' || s[i] == '?'
    &&& i + 2 < s.len()
    &&& white_space(s[i + 1])
    &&& opens_sentence(s[i + 2])
}

/// The abbreviations that do not end a sentence.
pub open spec fn abbreviations() -> Seq<Seq<char>> {
    seq!["Mr."@, "Mrs."@, "Ms."@, "Dr."@, "St."@, "Jr."@, "a.m."@, "p.m."@]
}

/// A text ends with another.
pub open spec fn ends_with(s: Seq<char>, end: Seq<char>) -> bool {
    end.len() <= s.len() && s.skip(s.len() - end.len()) == end
}

/// The text ends with an abbreviation.
pub open spec fn abbreviated(s: Seq<char>) -> bool {
    exists|k: int| 0 <= k < abbreviations().len() && ends_with(s, #[trigger] abbreviations()[k])
}

/// A text in a list, unless it is blank.
pub open spec fn with_text(list: Seq<Seq<char>>, s: Seq<char>) -> Seq<Seq<char>> {
    if trimmed(s).len() > 0 {
        list.push(trimmed(s))
    } else {
        list
    }
}

/// Where the open sentence starts, and the sentences before it.
#[verifier::ext_equal]
pub struct Cut {
    pub start: int,
    pub out: Seq<Seq<char>>,
}

/// The sentences that end among the first characters.
pub open spec fn cut_up_to(s: Seq<char>, n: int) -> Cut
    decreases n,
{
    if n <= 0 {
        Cut { start: 0, out: seq![] }
    } else {
        let before = cut_up_to(s, n - 1);
        let head = s.subrange(before.start, n);
        if may_break(s, n - 1) && !abbreviated(head) {
            Cut { start: n, out: with_text(before.out, head) }
        } else {
            before
        }
    }
}

/// The sentences of a text.
pub open spec fn sentences_of(s: Seq<char>) -> Seq<Seq<char>> {
    let cut = cut_up_to(s, s.len() as int);
    with_text(cut.out, s.skip(cut.start))
}

/// The open sentence starts no later than where it is looked at.
pub proof fn lemma_start(s: Seq<char>, n: int)
    requires
        0 <= n <= s.len(),
    ensures
        0 <= cut_up_to(s, n).start <= n,
    decreases n,
{
    if n > 0 {
        lemma_start(s, n - 1);
    }
}

fn has_end(s: &[char], from: usize, to: usize, end: &str) -> (r: bool)
    requires
        from <= to <= s@.len(),
    ensures
        r == ends_with(s@.subrange(from as int, to as int), end@),
{
    let e = to_chars(end);
    let ghost head = s@.subrange(from as int, to as int);
    if e.len() > to - from {
        return false;
    }
    let at: usize = to - e.len();
    let mut k: usize = 0;
    while k < e.len()
        invariant
            from <= to <= s@.len(),
            e@.len() <= to - from,
            at == to - e@.len(),
            e@ == end@,
            head == s@.subrange(from as int, to as int),
            k <= e@.len(),
            forall|j: int| 0 <= j < k ==> #[trigger] e@[j] == s@[at + j],
        decreases e.len() - k,
    {
        if s[at + k] != e[k] {
            proof {
                assert(head.skip(head.len() - end@.len())[k as int] == s@[at + k]);
            }
            return false;
        }
        k += 1;
    }
    assert(head.skip(head.len() - end@.len()) =~= end@);
    true
}

fn is_abbreviated(s: &[char], from: usize, to: usize) -> (r: bool)
    requires
        from <= to <= s@.len(),
    ensures
        r == abbreviated(s@.subrange(from as int, to as int)),
{
    let ghost head = s@.subrange(from as int, to as int);
    let list = ["Mr.", "Mrs.", "Ms.", "Dr.", "St.", "Jr.", "a.m.", "p.m."];
    assert(list@.len() == 8);
    assert(abbreviations() =~= list@.map_values(|a: &str| a@));
    let mut k: usize = 0;
    while k < list.len()
        invariant
            from <= to <= s@.len(),
            head == s@.subrange(from as int, to as int),
            abbreviations() == list@.map_values(|a: &str| a@),
            k <= list@.len(),
            forall|j: int| 0 <= j < k ==> !ends_with(head, #[trigger] abbreviations()[j]),
        decreases list.len() - k,
    {
        assert(abbreviations()[k as int] == list@[k as int]@);
        if has_end(s, from, to, list[k]) {
            assert(ends_with(head, abbreviations()[k as int]));
            return true;
        }
        k += 1;
    }
    false
}

fn push_trimmed(out: &mut Vec<String>, s: &[char])
    ensures
        texts(final(out)@) == with_text(texts(old(out)@), s@),
{
    let t = trim(s);
    if t.len() > 0 {
        out.push(from_chars(t.as_slice()));
        assert(texts(out@) =~= texts(old(out)@).push(trimmed(s@)));
    }
}

/// Splits after `. ! ?` when followed by white space and an upper-case or
/// opening-punctuation character; skips common abbreviations. Single sentences
/// are translated much better than run-ons.
pub fn sentences(text: &str) -> (r: Vec<String>)
    ensures
        texts(r@) == sentences_of(text@),
{
    let s = to_chars(text);
    let mut out: Vec<String> = Vec::new();
    let mut start: usize = 0;
    let mut i: usize = 0;
    assert(texts(out@) =~= seq![]);
    while i < s.len()
        invariant
            i <= s@.len(),
            s@ == text@,
            s@.len() == s.len(),
            start <= i,
            (Cut { start: start as int, out: texts(out@) }) == cut_up_to(text@, i as int),
        decreases s.len() - i,
    {
        let c = s[i];
        if (c == '.' || c == '!' || c == '?') && s.len() - i > 2 && s[i + 1].is_whitespace() {
            let next = s[i + 2];
            let opens = next.is_uppercase() || next == '\u{BF}' || next == '\u{A1}' || next == '"'
                || next == '\u{201C}';
            if opens && !is_abbreviated(s.as_slice(), start, i + 1) {
                let head = copy_range(s.as_slice(), start, i + 1);
                push_trimmed(&mut out, head.as_slice());
                start = i + 1;
            }
        }
        i += 1;
    }
    let tail = copy_range(s.as_slice(), start, s.len());
    assert(tail@ =~= text@.skip(start as int));
    push_trimmed(&mut out, tail.as_slice());
    out
}

/// A text without white space.
pub open spec fn visible(s: Seq<char>) -> Seq<char>
    decreases s.len(),
{
    if s.len() == 0 {
        seq![]
    } else if white_space(s.last()) {
        visible(s.drop_last())
    } else {
        visible(s.drop_last()).push(s.last())
    }
}

/// Texts one behind the other.
pub open spec fn together(list: Seq<Seq<char>>) -> Seq<char>
    decreases list.len(),
{
    if list.len() == 0 {
        seq![]
    } else {
        together(list.drop_last()) + list.last()
    }
}

/// Visible text adds up.
pub proof fn lemma_visible_adds(a: Seq<char>, b: Seq<char>)
    ensures
        visible(a + b) == visible(a) + visible(b),
    decreases b.len(),
{
    if b.len() == 0 {
        assert(a + b =~= a);
        assert(visible(a) + visible(b) =~= visible(a));
    } else {
        lemma_visible_adds(a, b.drop_last());
        assert((a + b).drop_last() =~= a + b.drop_last());
        assert(visible(a + b) =~= visible(a) + visible(b));
    }
}

proof fn lemma_trim_end_keeps(s: Seq<char>)
    ensures
        visible(trimmed_end(s)) == visible(s),
    decreases s.len(),
{
    if s.len() > 0 && white_space(s.last()) {
        lemma_trim_end_keeps(s.drop_last());
    }
}

proof fn lemma_trim_start_keeps(s: Seq<char>)
    ensures
        visible(trimmed_start(s)) == visible(s),
    decreases s.len(),
{
    if s.len() > 0 && white_space(s[0]) {
        lemma_trim_start_keeps(s.drop_first());
        lemma_visible_adds(seq![s[0]], s.drop_first());
        assert(seq![s[0]] + s.drop_first() =~= s);
        assert(visible(seq![s[0]]) =~= seq![]) by {
            reveal_with_fuel(visible, 2);
            assert(seq![s[0]].drop_last() =~= seq![]);
        }
        assert(visible(seq![s[0]]) + visible(s.drop_first()) =~= visible(s.drop_first()));
    }
}

proof fn lemma_with_text_keeps(list: Seq<Seq<char>>, s: Seq<char>)
    ensures
        visible(together(with_text(list, s))) == visible(together(list)) + visible(s),
{
    lemma_trim_keeps(s);
    let t = trimmed(s);
    if t.len() > 0 {
        assert(list.push(t).drop_last() =~= list);
        lemma_visible_adds(together(list), t);
    } else {
        assert(visible(t) =~= seq![]);
        assert(visible(together(list)) + visible(s) =~= visible(together(list)));
    }
}

/// Trimming takes nothing visible.
pub proof fn lemma_trim_keeps(s: Seq<char>)
    ensures
        visible(trimmed(s)) == visible(s),
{
    lemma_trim_end_keeps(s);
    lemma_trim_start_keeps(s);
    lemma_trim_start_keeps(trimmed_end(s));
    lemma_trim_end_keeps(trimmed_start(s));
}

proof fn lemma_cut_keeps(s: Seq<char>, n: int)
    requires
        0 <= n <= s.len(),
    ensures
        ({
            let cut = cut_up_to(s, n);
            visible(together(cut.out)) + visible(s.subrange(cut.start, n)) == visible(s.take(n))
        }),
    decreases n,
{
    lemma_start(s, n);
    if n > 0 {
        lemma_cut_keeps(s, n - 1);
        lemma_start(s, n - 1);
        let before = cut_up_to(s, n - 1);
        let cut = cut_up_to(s, n);
        let head = s.subrange(before.start, n);
        let short = s.subrange(before.start, n - 1);
        let one = seq![s[n - 1]];
        assert(head =~= short + one);
        assert(s.take(n) =~= s.take(n - 1) + one);
        lemma_visible_adds(short, one);
        lemma_visible_adds(s.take(n - 1), one);
        assert(visible(together(before.out)) + visible(head) =~= visible(s.take(n)));
        if may_break(s, n - 1) && !abbreviated(head) {
            lemma_with_text_keeps(before.out, head);
            assert(s.subrange(n, n) =~= seq![]);
            assert(visible(together(cut.out)) + visible(s.subrange(n, n)) =~= visible(
                together(cut.out),
            ));
        }
    } else {
        assert(s.subrange(0, 0) =~= seq![]);
        assert(s.take(0) =~= seq![]);
        assert(visible(together(cut_up_to(s, n).out)) + visible(s.subrange(0, 0)) =~= seq![]);
    }
}

/// Splitting into sentences loses nothing but white space.
pub proof fn law_sentences_keep_the_text(s: Seq<char>)
    ensures
        visible(together(sentences_of(s))) == visible(s),
{
    let n = s.len() as int;
    lemma_cut_keeps(s, n);
    lemma_start(s, n);
    let cut = cut_up_to(s, n);
    assert(s.subrange(cut.start, n) =~= s.skip(cut.start));
    assert(s.take(n) =~= s);
    lemma_with_text_keeps(cut.out, s.skip(cut.start));
}

/// Texts without white space around them, with a space between them.
pub open spec fn spaced(list: Seq<Seq<char>>) -> Seq<char>
    decreases list.len(),
{
    if list.len() == 0 {
        seq![]
    } else if list.len() == 1 {
        trimmed(list[0])
    } else {
        spaced(list.drop_last()).push(' ') + trimmed(list.last())
    }
}

/// Puts the translations of sentences together.
pub fn join_translations(parts: &[String]) -> (r: String)
    ensures
        r@ == spaced(texts(parts@)),
{
    let ghost all = texts(parts@);
    let mut s = String::new();
    let mut i: usize = 0;
    while i < parts.len()
        invariant
            i <= parts@.len(),
            all == texts(parts@),
            s@ == spaced(all.take(i as int)),
        decreases parts.len() - i,
    {
        proof {
            assert(all.take(i + 1).drop_last() =~= all.take(i as int));
            assert(all.take(i + 1).last() == parts@[i as int]@);
        }
        if i > 0 {
            s.push(' ');
        }
        let chars = to_chars(parts[i].as_str());
        let t = trim(chars.as_slice());
        let word = from_chars(t.as_slice());
        push_text(&mut s, word.as_str());
        assert(s@ =~= spaced(all.take(i + 1)));
        i += 1;
    }
    assert(all.take(all.len() as int) =~= all);
    s
}

/// What a refused or failed request is answered.
pub open spec fn complaint(clause_id: u64, lang: Seq<char>, why: Seq<char>) -> Seq<char> {
    "mt: clause "@ + decimal(clause_id as nat) + " "@ + lang + ": "@ + why
}

/// What a refused or failed request is answered.
pub fn error_message(clause_id: u64, lang: &str, why: &str) -> (r: String)
    ensures
        r@ == complaint(clause_id, lang@, why@),
{
    let mut s = String::new();
    push_text(&mut s, "mt: clause ");
    push_decimal(&mut s, clause_id);
    push_text(&mut s, " ");
    push_text(&mut s, lang);
    push_text(&mut s, ": ");
    push_text(&mut s, why);
    assert(s@ =~= complaint(clause_id, lang@, why@));
    s
}

/// Why a request cannot even be queued: it is too long, or its language has no
/// model.
pub fn refusal(text: &str, has_model: bool) -> (r: Option<String>)
    ensures
        ({
            let long = text.len() > MAX_INPUT_BYTES;
            match r {
                Some(why) => (long || !has_model) && why@ == if long {
                    "clause too long"@
                } else {
                    "no model for this language"@
                },
                None => !long && has_model,
            }
        }),
{
    if text.len() > MAX_INPUT_BYTES {
        Some("clause too long".to_owned())
    } else if !has_model {
        Some("no model for this language".to_owned())
    } else {
        None
    }
}

/// Whether a request that waited so long is still worth translating.
pub fn expired_in_queue(waited_ns: u64, deadline_ns: u64) -> (r: Option<String>)
    ensures
        match r {
            Some(why) => waited_ns >= deadline_ns && why@ == "deadline passed while queued"@,
            None => waited_ns < deadline_ns,
        },
{
    if waited_ns >= deadline_ns {
        Some("deadline passed while queued".to_owned())
    } else {
        None
    }
}

/// Whether a translation in progress must stop.
pub fn past_deadline(waited_ns: u64, deadline_ns: u64) -> (r: bool)
    ensures
        r == (waited_ns > deadline_ns),
{
    waited_ns > deadline_ns
}

/// What a request is answered.
#[derive(Clone, Debug, PartialEq, Eq)]
pub enum Answer {
    /// The translation, and how long it took.
    Translated { text: String, elapsed_ms: u32 },
    /// Why there is none.
    Failed(String),
}

/// Milliseconds, as far as they can be counted.
pub open spec fn whole_ms(ns: u64) -> int {
    if ns as int / 1_000_000 > u32::MAX {
        u32::MAX as int
    } else {
        ns as int / 1_000_000
    }
}

/// Decides what a request is answered once its translation is over, so long
/// after it arrived.
pub fn answer(translated: Result<String, String>, elapsed_ns: u64, deadline_ns: u64) -> (r: Answer)
    ensures
        match translated {
            Err(e) => r matches Answer::Failed(why) && why@ == e@,
            Ok(t) => if elapsed_ns > deadline_ns {
                r matches Answer::Failed(why) && why@ == "deadline passed"@
            } else if t@.len() == 0 {
                r matches Answer::Failed(why) && why@ == "empty translation"@
            } else {
                r matches Answer::Translated { text, elapsed_ms } && text@ == t@ && elapsed_ms
                    == whole_ms(elapsed_ns)
            },
        },
{
    match translated {
        Err(e) => Answer::Failed(e),
        Ok(t) => {
            if elapsed_ns > deadline_ns {
                return Answer::Failed("deadline passed".to_owned());
            }
            if t.as_str().is_empty() {
                return Answer::Failed("empty translation".to_owned());
            }
            let ms: u64 = elapsed_ns / 1_000_000;
            let elapsed_ms: u32 = if ms > u32::MAX as u64 {
                u32::MAX
            } else {
                ms as u32
            };
            Answer::Translated { text: t, elapsed_ms }
        },
    }
}

/// The names a model's directory can have, the preferred one first.
pub fn model_names(lang: &str) -> (r: (String, String))
    ensures
        r.0@ == "opus-mt-en-"@ + lang@,
        r.1@ == "opus-mt-tc-big-en-"@ + lang@,
{
    let mut a = String::new();
    push_text(&mut a, "opus-mt-en-");
    push_text(&mut a, lang);
    assert(a@ =~= "opus-mt-en-"@ + lang@);
    let mut b = String::new();
    push_text(&mut b, "opus-mt-tc-big-en-");
    push_text(&mut b, lang);
    assert(b@ =~= "opus-mt-tc-big-en-"@ + lang@);
    (a, b)
}

/// The name of a model's directory, by which of its names exist.
pub fn model_dir(lang: &str, has_first: bool, has_second: bool) -> (r: String)
    ensures
        r@ == if !has_first && has_second {
            "opus-mt-tc-big-en-"@ + lang@
        } else {
            "opus-mt-en-"@ + lang@
        },
{
    let (a, b) = model_names(lang);
    if !has_first && has_second {
        b
    } else {
        a
    }
}

} // verus!
