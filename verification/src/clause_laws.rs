//! When a clause ends, when it goes on, and what row its text starts on.
use vstd::prelude::*;

use crate::chars::{alphanumeric, trimmed};
use crate::counter::counted;
use crate::segment::{is_punctuation, run_of, Happening, Pass, Said, Seg};

verus! {

/// A mark that ends a sentence.
pub open spec fn full_stop(c: char) -> bool {
    c == '.' || c == '!' || c == '?'
}

/// A mark that ends a clause.
pub open spec fn pause_mark(c: char) -> bool {
    full_stop(c) || c == ',' || c == ';' || c == ':'
}

/// A word that says something and ends no clause.
pub open spec fn goes_on(w: Said) -> bool {
    trimmed(w.text).len() > 0 && !pause_mark(trimmed(w.text).last())
}

/// A word without white space around it.
pub open spec fn bare(w: Said) -> Said {
    Said { text: trimmed(w.text), ..w }
}

/// Words without white space around them.
pub open spec fn all_bare(words: Seq<Said>) -> Seq<Said> {
    words.map_values(|w: Said| bare(w))
}

/// Something in the word can be heard.
pub open spec fn has_sound(w: Seq<char>) -> bool {
    exists|i: int| 0 <= i < w.len() && alphanumeric(#[trigger] w[i])
}

/// Words are put together with one space between them; marks follow without one.
pub proof fn law_words_are_spaced(words: Seq<Said>, w: Said)
    ensures
        run_of(seq![]) == Seq::<char>::empty(),
        run_of(words).len() == 0 ==> run_of(words.push(w)) == w.text,
        run_of(words).len() > 0 && has_sound(w.text) ==> run_of(words.push(w)) == run_of(words)
            + seq![' '] + w.text,
        run_of(words).len() > 0 && w.text.len() > 0 && !has_sound(w.text) ==> run_of(
            words.push(w),
        ) == run_of(words) + w.text,
{
    assert(words.push(w).drop_last() =~= words);
    let s = run_of(words);
    assert(s.push(' ') + w.text =~= s + seq![' '] + w.text);
    assert(Seq::<char>::empty() + w.text =~= w.text);
    if s.len() == 0 {
        assert(s =~= Seq::<char>::empty());
    }
    if has_sound(w.text) {
        let i = choose|i: int| 0 <= i < w.text.len() && alphanumeric(#[trigger] w.text[i]);
        assert(!is_punctuation(w.text));
    }
}

proof fn lemma_pass_goes_on(p: Pass, words: Seq<Said>)
    requires
        forall|k: int| 0 <= k < words.len() ==> goes_on(#[trigger] words[k]),
        p.seg.words.len() + words.len() < 24,
    ensures
        ({
            let after = p.all_words(words);
            &&& after.out == p.out
            &&& after.chunk_row == p.chunk_row
            &&& after.seg.words == p.seg.words + all_bare(words)
            &&& after.seg.new_row == p.seg.new_row
            &&& after.seg.next_id == p.seg.next_id
            &&& after.seg.max_wait_ms == p.seg.max_wait_ms
            &&& after.seg.last_word == p.seg.last_word
            &&& words.len() > 0 ==> after.chunk.len() > 0
            &&& p.seg.words.len() == 0 && words.len() > 0 ==> after.seg.clause_row == p.seg.new_row
            &&& p.seg.words.len() > 0 || words.len() == 0 ==> after.seg.clause_row
                == p.seg.clause_row
        }),
    decreases words.len(),
{
    if words.len() == 0 {
        assert(p.seg.words + all_bare(words) =~= p.seg.words);
    } else {
        let head = words.drop_last();
        assert forall|k: int| 0 <= k < head.len() implies goes_on(#[trigger] head[k]) by {
            assert(head[k] == words[k]);
        }
        lemma_pass_goes_on(p, head);
        assert(goes_on(words[words.len() - 1]));
        assert(p.seg.words + all_bare(words) =~= (p.seg.words + all_bare(head)).push(
            bare(words.last()),
        ));
    }
}

/// Up to 23 words stay open as long as none ends with a mark: nothing is closed,
/// all of them wait, and their text goes to the source lane at once, on the row
/// that was due.
pub proof fn law_open_clauses_go_on(seg: Seg, words: Seq<Said>, now_ms: u64)
    requires
        words.len() > 0,
        seg.words.len() + words.len() < 24,
        forall|k: int| 0 <= k < words.len() ==> goes_on(#[trigger] words[k]),
    ensures
        ({
            let (out, after) = seg.hear(words, now_ms);
            &&& out.len() == 1
            &&& out[0] matches Happening::Source { text, new_row } && new_row == seg.new_row
            &&& after.words == seg.words + all_bare(words)
            &&& !after.new_row
            &&& after.last_word == Some(now_ms)
            &&& after.next_id == seg.next_id
            &&& after.clause_row == (if seg.words.len() == 0 {
                seg.new_row
            } else {
                seg.clause_row
            })
        }),
{
    let p = Pass { seg, chunk: seq![], chunk_row: seg.new_row, out: seq![] };
    lemma_pass_goes_on(p, words);
}

/// A word that ends with a mark, or the 24th word, closes the clause: its text
/// goes to the source lane, and the clause is told with all its words, the time of
/// the first and of the last, and the row it started on. The next text starts a
/// row exactly after the end of a sentence.
pub proof fn law_marks_close_the_clause(seg: Seg, w: Said, now_ms: u64)
    requires
        seg.wf(),
        seg.next_id < u64::MAX,
        has_sound(trimmed(w.text)),
        pause_mark(trimmed(w.text).last()) || seg.words.len() == 23,
    ensures
        ({
            let (out, after) = seg.hear(seq![w], now_ms);
            let all = seg.words.push(bare(w));
            let row = if seg.words.len() == 0 {
                seg.new_row
            } else {
                seg.clause_row
            };
            &&& out.len() == 2
            &&& out[0] == (Happening::Source { text: trimmed(w.text), new_row: seg.new_row })
            &&& out[1] == (Happening::Clause {
                id: seg.next_id,
                text: run_of(all),
                start_ms: all[0].start_ms,
                end_ms: w.end_ms,
                new_row: row,
            })
            &&& after.words.len() == 0
            &&& after.next_id == seg.next_id + 1
            &&& after.new_row == full_stop(trimmed(w.text).last())
            &&& after.last_word is None
        }),
{
    let p = Pass { seg, chunk: seq![], chunk_row: seg.new_row, out: seq![] };
    let t = trimmed(w.text);
    let i = choose|i: int| 0 <= i < t.len() && alphanumeric(#[trigger] t[i]);
    assert(!is_punctuation(t));
    assert(t.len() > 0);
    assert(seq![w].drop_last() =~= seq![]);
    assert(p.all_words(seq![w].drop_last()) == p);
    assert(p.all_words(seq![w]) == p.word(w));
    let all = seg.words.push(bare(w));
    assert(all.last() == bare(w));
    assert(all[all.len() - 1].text == t);
    assert(!crate::segment::only_punctuation(all));
    assert(Seq::<char>::empty() + t =~= t);
    let (out, after) = seg.hear(seq![w], now_ms);
    assert(counted(seg.next_id, 1) == seg.next_id + 1);
}

/// A clause waits as long as the pause is shorter than the longest wait, and
/// without a clause there is nothing to wait for.
pub proof fn law_short_pauses_close_nothing(seg: Seg, now_ms: u64)
    requires
        seg.max_wait_ms > 0,
        seg.last_word is None || now_ms - seg.last_word->0 < seg.max_wait_ms,
    ensures
        seg.tick(now_ms).0.len() == 0,
        seg.tick(now_ms).1 == seg,
{
}

/// A pause closes the clause with its words, its times and its row, and the next
/// text starts a row.
pub proof fn law_pauses_tell_the_clause(seg: Seg, now_ms: u64, k: int)
    requires
        seg.last_word is Some,
        now_ms - seg.last_word->0 >= seg.max_wait_ms,
        seg.next_id < u64::MAX,
        0 <= k < seg.words.len(),
        has_sound(seg.words[k].text),
    ensures
        seg.tick(now_ms).0 == seq![
            Happening::Clause {
                id: seg.next_id,
                text: run_of(seg.words),
                start_ms: seg.words[0].start_ms,
                end_ms: seg.words[seg.words.len() - 1].end_ms,
                new_row: seg.clause_row,
            },
        ],
        seg.tick(now_ms).1.next_id == seg.next_id + 1,
        seg.tick(now_ms).1.new_row && seg.tick(now_ms).1.words.len() == 0,
{
    let t = seg.words[k].text;
    let i = choose|i: int| 0 <= i < t.len() && alphanumeric(#[trigger] t[i]);
    assert(!is_punctuation(t));
    assert(!crate::segment::only_punctuation(seg.words));
    assert(seg.words.last() == seg.words[seg.words.len() - 1]);
}

/// Blank words change nothing.
pub proof fn law_blank_words_are_passed_over(seg: Seg, words: Seq<Said>, w: Said, now_ms: u64)
    requires
        trimmed(w.text).len() == 0,
    ensures
        seg.hear(words.push(w), now_ms) == seg.hear(words, now_ms),
{
    assert(words.push(w).drop_last() =~= words);
}

} // verus!
