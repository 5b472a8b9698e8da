//! What the segmenter promises: no word is lost, and clauses are short and
//! numbered in turn.
use vstd::prelude::*;

use crate::chars::trimmed;
use crate::counter::{counted, law_counts_add_up};
use crate::segment::{
    appended, ends_clause, ends_sentence, only_punctuation, run_of, Happening, Pass, Said, Seg,
    MAX_WORDS,
};

verus! {

/// A text without its spaces.
pub open spec fn spaceless(s: Seq<char>) -> Seq<char>
    decreases s.len(),
{
    if s.len() == 0 {
        seq![]
    } else if s.last() == ' ' {
        spaceless(s.drop_last())
    } else {
        spaceless(s.drop_last()).push(s.last())
    }
}

/// The source texts one behind the other.
pub open spec fn shown(out: Seq<Happening>) -> Seq<char>
    decreases out.len(),
{
    if out.len() == 0 {
        seq![]
    } else {
        let head = shown(out.drop_last());
        match out.last() {
            Happening::Source { text, new_row } => head + text,
            _ => head,
        }
    }
}

/// The words one behind the other, without white space around them.
pub open spec fn spoken(words: Seq<Said>) -> Seq<char>
    decreases words.len(),
{
    if words.len() == 0 {
        seq![]
    } else {
        spoken(words.drop_last()) + trimmed(words.last().text)
    }
}

/// The numbers of the clauses.
pub open spec fn clause_ids(out: Seq<Happening>) -> Seq<u64>
    decreases out.len(),
{
    if out.len() == 0 {
        seq![]
    } else {
        let head = clause_ids(out.drop_last());
        match out.last() {
            Happening::Clause { id, .. } => head.push(id),
            _ => head,
        }
    }
}

proof fn lemma_spaceless_adds(a: Seq<char>, b: Seq<char>)
    ensures
        spaceless(a + b) == spaceless(a) + spaceless(b),
    decreases b.len(),
{
    if b.len() == 0 {
        assert(a + b =~= a);
        assert(spaceless(a) + spaceless(b) =~= spaceless(a));
    } else {
        lemma_spaceless_adds(a, b.drop_last());
        assert((a + b).drop_last() =~= a + b.drop_last());
        assert(spaceless(a + b) =~= spaceless(a) + spaceless(b));
    }
}

proof fn lemma_appended(s: Seq<char>, w: Seq<char>)
    ensures
        spaceless(appended(s, w)) == spaceless(s) + spaceless(w),
{
    lemma_spaceless_adds(s.push(' '), w);
    lemma_spaceless_adds(s, w);
    assert(s.push(' ').drop_last() =~= s);
}

proof fn lemma_close_shows_nothing(seg: Seg, end: bool, out: Seq<Happening>)
    ensures
        shown(out + seg.close(end).0) == shown(out),
{
    let closed = seg.close(end).0;
    if closed.len() == 0 {
        assert(out + closed =~= out);
    } else {
        assert((out + closed).drop_last() =~= out);
    }
}

proof fn lemma_word_is_shown(p: Pass, w: Said)
    ensures
        spaceless(shown(p.word(w).out) + p.word(w).chunk) == spaceless(shown(p.out) + p.chunk)
            + spaceless(trimmed(w.text)),
{
    let t = trimmed(w.text);
    lemma_spaceless_adds(shown(p.out), p.chunk);
    lemma_spaceless_adds(shown(p.word(w).out), p.word(w).chunk);
    lemma_appended(p.chunk, t);
    if t.len() == 0 {
        assert(spaceless(t) =~= seq![]);
    } else {
        let seg = p.seg.with_word(Said { text: t, ..w });
        let text = Happening::Source { text: appended(p.chunk, t), new_row: p.chunk_row };
        lemma_close_shows_nothing(
            seg,
            ends_sentence(t.last()),
            p.out.push(text),
        );
        assert(p.out.push(text).drop_last() =~= p.out);
        lemma_spaceless_adds(shown(p.out), appended(p.chunk, t));
        assert(spaceless(Seq::<char>::empty()) =~= seq![]);
    }
    assert(spaceless(shown(p.word(w).out) + p.word(w).chunk) =~= spaceless(shown(p.out) + p.chunk)
        + spaceless(t));
}

proof fn lemma_words_are_shown(p: Pass, words: Seq<Said>)
    ensures
        spaceless(shown(p.all_words(words).out) + p.all_words(words).chunk) == spaceless(
            shown(p.out) + p.chunk,
        ) + spaceless(spoken(words)),
    decreases words.len(),
{
    if words.len() == 0 {
        assert(spaceless(shown(p.out) + p.chunk) + spaceless(spoken(words)) =~= spaceless(
            shown(p.out) + p.chunk,
        ));
    } else {
        let init = words.drop_last();
        lemma_words_are_shown(p, init);
        lemma_word_is_shown(p.all_words(init), words.last());
        lemma_spaceless_adds(spoken(init), trimmed(words.last().text));
        assert(spaceless(shown(p.out) + p.chunk) + (spaceless(spoken(init)) + spaceless(
            trimmed(words.last().text),
        )) =~= (spaceless(shown(p.out) + p.chunk) + spaceless(spoken(init))) + spaceless(
            trimmed(words.last().text),
        ));
    }
}

/// Committed words go to the source lane as they arrive: the source texts hold
/// every word in order, but for the spaces between them.
pub proof fn law_source_lane_gets_every_word(seg: Seg, words: Seq<Said>, now_ms: u64)
    ensures
        spaceless(shown(seg.hear(words, now_ms).0)) == spaceless(spoken(words)),
{
    let start = Pass { seg, chunk: seq![], chunk_row: seg.new_row, out: seq![] };
    lemma_words_are_shown(start, words);
    let end = start.all_words(words);
    assert(shown(start.out) + start.chunk =~= seq![]);
    assert(spaceless(Seq::<char>::empty()) =~= seq![]);
    assert(spaceless(shown(start.out) + start.chunk) + spaceless(spoken(words)) =~= spaceless(
        spoken(words),
    ));
    let last = Happening::Source { text: end.chunk, new_row: end.chunk_row };
    assert(end.out.push(last).drop_last() =~= end.out);
    if end.chunk.len() == 0 {
        assert(shown(end.out) + end.chunk =~= shown(end.out));
    }
}

/// The clauses of a list are numbered in turn from one number to another.
pub open spec fn numbered(out: Seq<Happening>, from: u64, to: u64) -> bool {
    &&& to == counted(from, clause_ids(out).len())
    &&& forall|k: int|
        0 <= k < clause_ids(out).len() ==> #[trigger] clause_ids(out)[k] == counted(from, k as nat)
}

proof fn lemma_numbered_more(out: Seq<Happening>, e: Happening, from: u64, to: u64)
    requires
        numbered(out, from, to),
    ensures
        e is Source ==> numbered(out.push(e), from, to),
        e matches Happening::Clause { id, .. } ==> id == to ==> numbered(
            out.push(e),
            from,
            counted(to, 1),
        ),
{
    assert(out.push(e).drop_last() =~= out);
    law_counts_add_up(from, clause_ids(out).len(), 1);
}

proof fn lemma_pass_numbers(p: Pass, words: Seq<Said>, from: u64)
    requires
        numbered(p.out, from, p.seg.next_id),
    ensures
        numbered(p.all_words(words).out, from, p.all_words(words).seg.next_id),
    decreases words.len(),
{
    if words.len() > 0 {
        let q = p.all_words(words.drop_last());
        let w = words.last();
        lemma_pass_numbers(p, words.drop_last(), from);
        let t = trimmed(w.text);
        if t.len() > 0 {
            let seg = q.seg.with_word(Said { text: t, ..w });
            let text = Happening::Source { text: appended(q.chunk, t), new_row: q.chunk_row };
            let (closed, after) = seg.close(ends_sentence(t.last()));
            lemma_numbered_more(q.out, text, from, q.seg.next_id);
            let shown = q.out.push(text);
            if only_punctuation(seg.words) {
                assert(shown + closed =~= shown);
            } else {
                lemma_numbered_more(shown, closed[0], from, q.seg.next_id);
                assert(shown + closed =~= shown.push(closed[0]));
            }
        }
    }
}

/// Clauses are numbered in turn, without gaps and across calls.
pub proof fn law_clauses_are_numbered_in_turn(seg: Seg, words: Seq<Said>, now_ms: u64)
    ensures
        numbered(seg.hear(words, now_ms).0, seg.next_id, seg.hear(words, now_ms).1.next_id),
        numbered(seg.tick(now_ms).0, seg.next_id, seg.tick(now_ms).1.next_id),
{
    let start = Pass { seg, chunk: seq![], chunk_row: seg.new_row, out: seq![] };
    law_counts_add_up(seg.next_id, 0, 0);
    assert(numbered(start.out, seg.next_id, seg.next_id));
    lemma_pass_numbers(start, words, seg.next_id);
    let end = start.all_words(words);
    let last = Happening::Source { text: end.chunk, new_row: end.chunk_row };
    lemma_numbered_more(end.out, last, seg.next_id, end.seg.next_id);
    let (closed, after) = seg.tick(now_ms);
    if closed.len() > 0 {
        lemma_numbered_more(seq![], closed[0], seg.next_id, seg.next_id);
        assert(closed =~= Seq::<Happening>::empty().push(closed[0]));
    } else {
        assert(closed =~= seq![]);
    }
}

/// A pause closes the open clause: nothing stays open, and the next text starts
/// a new row.
pub proof fn law_a_pause_closes_the_clause(seg: Seg, t: u64, now_ms: u64)
    requires
        seg.last_word == Some(t),
        seg.words.len() > 0,
        now_ms - t >= seg.max_wait_ms,
    ensures
        seg.tick(now_ms).1.words.len() == 0,
        seg.tick(now_ms).1.new_row,
        seg.tick(now_ms).1.last_word is None,
        !only_punctuation(seg.words) ==> seg.tick(now_ms).0.len() == 1,
{
}

/// A word that ends in clause punctuation closes the open clause.
pub proof fn law_punctuation_closes_the_clause(seg: Seg, words: Seq<Said>, now_ms: u64)
    requires
        words.len() > 0,
        trimmed(words.last().text).len() > 0,
        ends_clause(trimmed(words.last().text).last()),
    ensures
        seg.hear(words, now_ms).1.words.len() == 0,
{
}

proof fn lemma_clauses_stay_short(p: Pass, words: Seq<Said>)
    requires
        p.seg.wf(),
    ensures
        p.all_words(words).seg.wf(),
    decreases words.len(),
{
    if words.len() > 0 {
        lemma_clauses_stay_short(p, words.drop_last());
    }
}

/// The open clause never has as many words as a clause may have: it closes when
/// it is full.
pub proof fn law_full_clauses_close(seg: Seg, words: Seq<Said>, now_ms: u64)
    requires
        seg.wf(),
    ensures
        seg.hear(words, now_ms).1.wf(),
        seg.tick(now_ms).1.wf(),
{
    let start = Pass { seg, chunk: seq![], chunk_row: seg.new_row, out: seq![] };
    lemma_clauses_stay_short(start, words);
}

/// A text that at most `MAX_WORDS` words make up, and at least one.
pub open spec fn joins_few_words(text: Seq<char>) -> bool {
    exists|words: Seq<Said>| 0 < words.len() <= MAX_WORDS && text == #[trigger] run_of(words)
}

/// The words that count: trimmed, empty ones left out.
pub open spec fn kept(words: Seq<Said>) -> Seq<Said>
    decreases words.len(),
{
    if words.len() == 0 {
        seq![]
    } else {
        let head = kept(words.drop_last());
        let text = trimmed(words.last().text);
        if text.len() == 0 {
            head
        } else {
            head.push(Said { text, ..words.last() })
        }
    }
}

/// Groups of words one behind the other.
pub open spec fn flat(groups: Seq<Seq<Said>>) -> Seq<Said>
    decreases groups.len(),
{
    if groups.len() == 0 {
        seq![]
    } else {
        flat(groups.drop_last()) + groups.last()
    }
}

/// What a clause says, its number and row left out.
#[verifier::ext_equal]
pub struct Told {
    pub text: Seq<char>,
    pub start_ms: u64,
    pub end_ms: u64,
}

/// The clauses of the groups that hold more than punctuation.
pub open spec fn told(groups: Seq<Seq<Said>>) -> Seq<Told>
    decreases groups.len(),
{
    if groups.len() == 0 {
        seq![]
    } else {
        let head = told(groups.drop_last());
        let words = groups.last();
        if only_punctuation(words) {
            head
        } else {
            head.push(
                Told {
                    text: run_of(words),
                    start_ms: words[0].start_ms,
                    end_ms: words.last().end_ms,
                },
            )
        }
    }
}

/// The clauses among what was brought.
pub open spec fn clauses(out: Seq<Happening>) -> Seq<Told>
    decreases out.len(),
{
    if out.len() == 0 {
        seq![]
    } else {
        let head = clauses(out.drop_last());
        match out.last() {
            Happening::Clause { text, start_ms, end_ms, .. } => head.push(
                Told { text, start_ms, end_ms },
            ),
            _ => head,
        }
    }
}

/// The words fall into groups of at most `MAX_WORDS` and the open clause; the
/// clauses brought are those of the groups, in turn.
pub open spec fn cut_into(
    groups: Seq<Seq<Said>>,
    words: Seq<Said>,
    open: Seq<Said>,
    out: Seq<Happening>,
) -> bool {
    &&& words == flat(groups) + open
    &&& forall|k: int| 0 <= k < groups.len() ==> 0 < (#[trigger] groups[k]).len() <= MAX_WORDS
    &&& clauses(out) == told(groups)
}

/// A call of the segmenter.
pub enum Call {
    Words { words: Seq<Said>, now_ms: u64 },
    Tick { now_ms: u64 },
}

impl Call {
    /// What the call brings, and the state behind it.
    pub open spec fn made(self, seg: Seg) -> (Seq<Happening>, Seg) {
        match self {
            Call::Words { words, now_ms } => seg.hear(words, now_ms),
            Call::Tick { now_ms } => seg.tick(now_ms),
        }
    }

    /// The words that the call hands over.
    pub open spec fn words(self) -> Seq<Said> {
        match self {
            Call::Words { words, .. } => words,
            Call::Tick { .. } => seq![],
        }
    }
}

/// What calls bring, one after the other, and the state behind them.
pub open spec fn run_calls(seg: Seg, calls: Seq<Call>) -> (Seq<Happening>, Seg)
    decreases calls.len(),
{
    if calls.len() == 0 {
        (seq![], seg)
    } else {
        let (head, before) = run_calls(seg, calls.drop_last());
        let (out, after) = calls.last().made(before);
        (head + out, after)
    }
}

/// The words that calls hand over.
pub open spec fn call_words(calls: Seq<Call>) -> Seq<Said>
    decreases calls.len(),
{
    if calls.len() == 0 {
        seq![]
    } else {
        call_words(calls.drop_last()) + calls.last().words()
    }
}

proof fn lemma_kept_adds(a: Seq<Said>, b: Seq<Said>)
    ensures
        kept(a + b) == kept(a) + kept(b),
    decreases b.len(),
{
    if b.len() == 0 {
        assert(a + b =~= a);
        assert(kept(a) + kept(b) =~= kept(a));
    } else {
        lemma_kept_adds(a, b.drop_last());
        assert((a + b).drop_last() =~= a + b.drop_last());
        assert(kept(a + b) =~= kept(a) + kept(b));
    }
}

proof fn lemma_spoken_adds(a: Seq<Said>, b: Seq<Said>)
    ensures
        spoken(a + b) == spoken(a) + spoken(b),
    decreases b.len(),
{
    if b.len() == 0 {
        assert(a + b =~= a);
        assert(spoken(a) + spoken(b) =~= spoken(a));
    } else {
        lemma_spoken_adds(a, b.drop_last());
        assert((a + b).drop_last() =~= a + b.drop_last());
        assert(spoken(a + b) =~= spoken(a) + spoken(b));
    }
}

proof fn lemma_shown_adds(a: Seq<Happening>, b: Seq<Happening>)
    ensures
        shown(a + b) == shown(a) + shown(b),
        clauses(a + b) == clauses(a) + clauses(b),
        clause_ids(a + b) == clause_ids(a) + clause_ids(b),
    decreases b.len(),
{
    if b.len() == 0 {
        assert(a + b =~= a);
        assert(shown(a) + shown(b) =~= shown(a));
        assert(clauses(a) + clauses(b) =~= clauses(a));
        assert(clause_ids(a) + clause_ids(b) =~= clause_ids(a));
    } else {
        lemma_shown_adds(a, b.drop_last());
        assert((a + b).drop_last() =~= a + b.drop_last());
        assert(shown(a + b) =~= shown(a) + shown(b));
        assert(clauses(a + b) =~= clauses(a) + clauses(b));
        assert(clause_ids(a + b) =~= clause_ids(a) + clause_ids(b));
    }
}

proof fn lemma_groups_add(a: Seq<Seq<Said>>, b: Seq<Seq<Said>>)
    ensures
        flat(a + b) == flat(a) + flat(b),
        told(a + b) == told(a) + told(b),
    decreases b.len(),
{
    if b.len() == 0 {
        assert(a + b =~= a);
        assert(flat(a) + flat(b) =~= flat(a));
        assert(told(a) + told(b) =~= told(a));
    } else {
        lemma_groups_add(a, b.drop_last());
        assert((a + b).drop_last() =~= a + b.drop_last());
        assert(flat(a + b) =~= flat(a) + flat(b));
        assert(told(a + b) =~= told(a) + told(b));
    }
}

/// Closing the open clause makes it a group.
proof fn lemma_close_groups(
    groups: Seq<Seq<Said>>,
    words: Seq<Said>,
    seg: Seg,
    end: bool,
    out: Seq<Happening>,
)
    requires
        cut_into(groups, words, seg.words, out),
        0 < seg.words.len() <= MAX_WORDS,
    ensures
        cut_into(groups.push(seg.words), words, seg.close(end).1.words, out + seg.close(end).0),
{
    let more = groups.push(seg.words);
    assert(more.drop_last() =~= groups);
    assert(flat(more) + Seq::<Said>::empty() =~= flat(groups) + seg.words);
    let closed = seg.close(end).0;
    if closed.len() == 0 {
        assert(out + closed =~= out);
    } else {
        assert((out + closed).drop_last() =~= out);
    }
}

/// One word: it joins the open clause, and may close it.
proof fn lemma_word_groups(groups: Seq<Seq<Said>>, words: Seq<Said>, p: Pass, w: Said) -> (r: Seq<
    Seq<Said>,
>)
    requires
        cut_into(groups, words, p.seg.words, p.out),
        p.seg.wf(),
    ensures
        cut_into(r, words + kept(seq![w]), p.word(w).seg.words, p.word(w).out),
        p.word(w).seg.wf(),
{
    let t = trimmed(w.text);
    assert(seq![w].drop_last() =~= seq![]);
    assert(kept(Seq::<Said>::empty()) =~= seq![]);
    if t.len() == 0 {
        assert(words + kept(seq![w]) =~= words);
        groups
    } else {
        let one = Said { text: t, ..w };
        assert(kept(seq![w]) =~= seq![one]);
        let seg = p.seg.with_word(one);
        let all = words + seq![one];
        assert(all =~= flat(groups) + seg.words);
        if ends_clause(t.last()) || seg.words.len() >= MAX_WORDS {
            let text = Happening::Source { text: appended(p.chunk, t), new_row: p.chunk_row };
            let out = p.out.push(text);
            assert(out.drop_last() =~= p.out);
            lemma_close_groups(groups, all, seg, ends_sentence(t.last()), out);
            groups.push(seg.words)
        } else {
            groups
        }
    }
}

proof fn lemma_words_group(groups: Seq<Seq<Said>>, before: Seq<Said>, p: Pass, words: Seq<Said>) -> (
    r: Seq<Seq<Said>>)
    requires
        cut_into(groups, before, p.seg.words, p.out),
        p.seg.wf(),
    ensures
        cut_into(
            r,
            before + kept(words),
            p.all_words(words).seg.words,
            p.all_words(words).out,
        ),
        p.all_words(words).seg.wf(),
    decreases words.len(),
{
    if words.len() == 0 {
        assert(before + kept(words) =~= before);
        groups
    } else {
        let init = words.drop_last();
        let g = lemma_words_group(groups, before, p, init);
        let r = lemma_word_groups(g, before + kept(init), p.all_words(init), words.last());
        lemma_kept_adds(init, seq![words.last()]);
        assert(init + seq![words.last()] =~= words);
        assert(before + kept(init) + kept(seq![words.last()]) =~= before + kept(words));
        r
    }
}

/// One call, behind what is open already.
proof fn lemma_call_groups(seg: Seg, call: Call) -> (r: Seq<Seq<Said>>)
    requires
        seg.wf(),
    ensures
        cut_into(r, seg.words + kept(call.words()), call.made(seg).1.words, call.made(seg).0),
        call.made(seg).1.wf(),
{
    let none: Seq<Seq<Said>> = seq![];
    assert(flat(none) + seg.words =~= seg.words);
    match call {
        Call::Words { words, now_ms } => {
            let start = Pass { seg, chunk: seq![], chunk_row: seg.new_row, out: seq![] };
            let r = lemma_words_group(none, seg.words, start, words);
            let end = start.all_words(words);
            let last = Happening::Source { text: end.chunk, new_row: end.chunk_row };
            assert(end.out.push(last).drop_last() =~= end.out);
            r
        },
        Call::Tick { now_ms } => {
            assert(seg.words + kept(call.words()) =~= seg.words);
            let closed = seg.close(true).0;
            assert(Seq::<Happening>::empty() + closed =~= closed);
            if seg.tick(now_ms) != (Seq::<Happening>::empty(), seg) {
                lemma_close_groups(none, seg.words, seg, true, seq![]);
                none.push(seg.words)
            } else {
                none
            }
        },
    }
}

proof fn lemma_calls_group(seg: Seg, calls: Seq<Call>) -> (r: Seq<Seq<Said>>)
    requires
        seg.wf(),
    ensures
        cut_into(
            r,
            seg.words + kept(call_words(calls)),
            run_calls(seg, calls).1.words,
            run_calls(seg, calls).0,
        ),
        run_calls(seg, calls).1.wf(),
    decreases calls.len(),
{
    if calls.len() == 0 {
        let none: Seq<Seq<Said>> = seq![];
        assert(kept(call_words(calls)) =~= seq![]);
        assert(seg.words + kept(call_words(calls)) =~= flat(none) + seg.words);
        none
    } else {
        let init = calls.drop_last();
        let last = calls.last();
        let (head, before) = run_calls(seg, init);
        let (out, after) = last.made(before);
        let g = lemma_calls_group(seg, init);
        let h = lemma_call_groups(before, last);
        let r = g + h;
        lemma_groups_add(g, h);
        lemma_shown_adds(head, out);
        lemma_kept_adds(call_words(init), last.words());
        assert(seg.words + kept(call_words(calls)) =~= (seg.words + kept(call_words(init))) + kept(
            last.words(),
        ));
        assert(flat(g) + (before.words + kept(last.words())) =~= flat(g) + before.words + kept(
            last.words(),
        ));
        assert(flat(g) + (flat(h) + after.words) =~= flat(r) + after.words);
        assert forall|k: int| 0 <= k < r.len() implies 0 < (#[trigger] r[k]).len() <= MAX_WORDS by {
            if k < g.len() {
                assert(r[k] == g[k]);
            } else {
                assert(r[k] == h[k - g.len()]);
            }
        }
        r
    }
}

proof fn lemma_told_is_short(groups: Seq<Seq<Said>>, k: int)
    requires
        0 <= k < told(groups).len(),
        forall|j: int| 0 <= j < groups.len() ==> 0 < (#[trigger] groups[j]).len() <= MAX_WORDS,
    ensures
        joins_few_words(told(groups)[k].text),
    decreases groups.len(),
{
    let init = groups.drop_last();
    let last = groups[groups.len() - 1];
    assert(last == groups.last());
    if k < told(init).len() {
        assert forall|j: int| 0 <= j < init.len() implies 0 < (#[trigger] init[j]).len()
            <= MAX_WORDS by {
            assert(init[j] == groups[j]);
        }
        lemma_told_is_short(init, k);
        assert(told(groups)[k] == told(init)[k]);
    } else {
        assert(told(groups)[k].text == run_of(last));
    }
}

proof fn lemma_clause_among(out: Seq<Happening>, i: int) -> (k: int)
    requires
        0 <= i < out.len(),
        out[i] is Clause,
    ensures
        0 <= k < clauses(out).len(),
        clauses(out)[k].text == out[i]->Clause_text,
    decreases out.len(),
{
    let init = out.drop_last();
    if i == out.len() - 1 {
        clauses(init).len() as int
    } else {
        let k = lemma_clause_among(init, i);
        assert(clauses(out)[k] == clauses(init)[k]);
        k
    }
}

proof fn lemma_calls_number(seg: Seg, calls: Seq<Call>)
    ensures
        numbered(run_calls(seg, calls).0, seg.next_id, run_calls(seg, calls).1.next_id),
    decreases calls.len(),
{
    if calls.len() == 0 {
        law_counts_add_up(seg.next_id, 0, 0);
    } else {
        let init = calls.drop_last();
        let (head, before) = run_calls(seg, init);
        let (out, after) = calls.last().made(before);
        lemma_calls_number(seg, init);
        match calls.last() {
            Call::Words { words, now_ms } => {
                law_clauses_are_numbered_in_turn(before, words, now_ms);
            },
            Call::Tick { now_ms } => {
                law_clauses_are_numbered_in_turn(before, seq![], now_ms);
            },
        }
        lemma_shown_adds(head, out);
        let n = clause_ids(head).len();
        law_counts_add_up(seg.next_id, n, clause_ids(out).len());
        let all = clause_ids(head + out);
        assert forall|k: int| 0 <= k < all.len() implies #[trigger] all[k] == counted(
            seg.next_id,
            k as nat,
        ) by {
            if k < n {
                assert(all[k] == clause_ids(head)[k]);
            } else {
                assert(all[k] == clause_ids(out)[k - n]);
                law_counts_add_up(seg.next_id, n, (k - n) as nat);
            }
        }
    }
}

proof fn lemma_calls_show(seg: Seg, calls: Seq<Call>)
    ensures
        spaceless(shown(run_calls(seg, calls).0)) == spaceless(spoken(call_words(calls))),
    decreases calls.len(),
{
    if calls.len() > 0 {
        let init = calls.drop_last();
        let last = calls.last();
        let (head, before) = run_calls(seg, init);
        let (out, after) = last.made(before);
        lemma_calls_show(seg, init);
        lemma_shown_adds(head, out);
        lemma_spoken_adds(call_words(init), last.words());
        lemma_spaceless_adds(shown(head), shown(out));
        lemma_spaceless_adds(spoken(call_words(init)), spoken(last.words()));
        match last {
            Call::Words { words, now_ms } => {
                law_source_lane_gets_every_word(before, words, now_ms);
            },
            Call::Tick { now_ms } => {
                lemma_close_shows_nothing(before, true, seq![]);
                assert(Seq::<Happening>::empty() + before.close(true).0 =~= before.close(true).0);
            },
        }
    }
}

/// Over any run of calls: the source texts hold every word in order, but for the
/// spaces; the clauses are numbered in turn without gaps, from 0 in a fresh
/// segmenter; every clause joins at most [`MAX_WORDS`] words; and the words fall,
/// in order, into the clauses, groups of mere punctuation, and the clause that is
/// still open.
pub proof fn law_a_run_of_calls(seg: Seg, calls: Seq<Call>)
    requires
        seg.wf(),
    ensures
        ({
            let (out, after) = run_calls(seg, calls);
            let ids = clause_ids(out);
            &&& spaceless(shown(out)) == spaceless(spoken(call_words(calls)))
            &&& numbered(out, seg.next_id, after.next_id)
            &&& forall|k: int|
                0 <= k < ids.len() && seg.next_id + k <= u64::MAX ==> #[trigger] ids[k]
                    == seg.next_id + k
            &&& forall|i: int|
                0 <= i < out.len() && (#[trigger] out[i]) is Clause ==> joins_few_words(
                    out[i]->Clause_text,
                )
            &&& exists|groups: Seq<Seq<Said>>| #[trigger]
                cut_into(groups, seg.words + kept(call_words(calls)), after.words, out)
            &&& after.wf()
        }),
{
    let (out, after) = run_calls(seg, calls);
    let ids = clause_ids(out);
    lemma_calls_show(seg, calls);
    lemma_calls_number(seg, calls);
    let groups = lemma_calls_group(seg, calls);
    assert forall|k: int| 0 <= k < ids.len() && seg.next_id + k <= u64::MAX implies #[trigger] ids[k]
        == seg.next_id + k by {
        assert(ids[k] == counted(seg.next_id, k as nat));
    }
    assert forall|i: int| 0 <= i < out.len() && (#[trigger] out[i]) is Clause implies joins_few_words(
        out[i]->Clause_text,
    ) by {
        let k = lemma_clause_among(out, i);
        lemma_told_is_short(groups, k);
    }
}

} // verus!
