//! What a recogniser's listener may rely on: where words begin, when they are
//! final, and which audio a speech segment starts with.
use vstd::prelude::*;

use crate::words::{clean, grouping, Commits, Gate, GateEvent};

verus! {

/// A token loses the marks that it starts with and nothing else.
pub proof fn law_cleaning_drops_leading_marks(token: Seq<char>, n: int)
    requires
        0 <= n <= token.len(),
        forall|k: int| 0 <= k < n ==> (#[trigger] token[k]) == ' ' || token[k] == '\u{2581}',
        n < token.len() ==> token[n] != ' ' && token[n] != '\u{2581}',
    ensures
        clean(token) == token.skip(n),
    decreases n,
{
    if n > 0 {
        let rest = token.drop_first();
        assert(token[0] == ' ' || token[0] == '\u{2581}');
        assert forall|k: int| 0 <= k < n - 1 implies (#[trigger] rest[k]) == ' ' || rest[k]
            == '\u{2581}' by {
            assert(rest[k] == token[k + 1]);
        }
        law_cleaning_drops_leading_marks(rest, n - 1);
        assert(rest.skip(n - 1) =~= token.skip(n));
    } else {
        assert(token.skip(0) =~= token);
    }
}

/// One more token behind others. A tag in angle brackets adds no text, and the
/// next token begins a word. A token that starts with a mark begins a word with
/// what stands behind its marks. Any other token continues the last word, unless
/// a word was to begin there. No word before the last one changes.
pub proof fn law_marks_begin_words(tokens: Seq<Seq<char>>, token: Seq<char>)
    ensures
        ({
            let before = grouping(tokens);
            let after = grouping(tokens.push(token));
            let text = clean(token);
            let n = before.words.len();
            let at = tokens.len() as int;
            let marked = token.len() > 0 && (token[0] == ' ' || token[0] == '\u{2581}');
            let tag = text.len() > 0 && text[0] == '<' && text[text.len() - 1] == '>';
            let begins = marked || before.boundary || n == 0;
            &&& tag ==> after.words == before.words && after.boundary
            &&& !tag && text.len() == 0 ==> after.words == before.words && after.boundary == (
            before.boundary || marked)
            &&& !tag && text.len() > 0 ==> !after.boundary
            &&& !tag && text.len() > 0 && begins ==> {
                &&& after.words.len() == n + 1
                &&& after.words.take(n as int) == before.words
                &&& after.words[n as int].text == text
                &&& after.words[n as int].first == at
                &&& after.words[n as int].last == at
            }
            &&& !tag && text.len() > 0 && !begins ==> {
                &&& after.words.len() == n
                &&& after.words.take(n - 1) == before.words.take(n - 1)
                &&& after.words[n - 1].text == before.words[n - 1].text + text
                &&& after.words[n - 1].first == before.words[n - 1].first
                &&& after.words[n - 1].last == at
            }
            &&& tokens.len() == 0 ==> before.boundary && n == 0
        }),
{
    assert(tokens.push(token).drop_last() =~= tokens);
    let before = grouping(tokens).words;
    let after = grouping(tokens.push(token)).words;
    let n = before.len() as int;
    if after.len() == n + 1 {
        assert(after.take(n) =~= before);
    } else if n > 0 {
        assert(after.take(n - 1) =~= before.take(n - 1));
    }
}

/// When words are final. Every word that another one follows is committed. The
/// last word is committed with `all`, or once it has stood still, as the last of
/// as many words, for decode steps worth `final_word_ms`; a step that changed it,
/// or the number of words, commits it only if that is zero. Nothing is committed
/// twice, and nothing is taken back.
pub proof fn law_the_last_word_must_stand_still(
    c: Commits,
    steps: u32,
    words: Seq<Seq<char>>,
    all: bool,
)
    requires
        0 <= c.done,
        0 <= c.idle_steps,
    ensures
        ({
            let (out, after) = c.step(steps, words, all);
            let n = words.len() as int;
            let same = n == c.partial_len && (n == 0 && c.partial_last is None || n > 0
                && c.partial_last == Some(words[n - 1]));
            let still = c.idle_steps + steps;
            &&& out.from == c.done
            &&& out.to == after.done
            &&& out.to >= c.done && out.to >= n - 1
            &&& out.to <= c.done || out.to <= n
            &&& all ==> out.to >= n
            &&& !all && !same && c.final_word_ms > 0 ==> out.to == c.done || out.to == n - 1
            &&& !all && same && still <= u32::MAX ==> {
                &&& still * c.chunk_ms >= c.final_word_ms ==> out.to >= n
                &&& still * c.chunk_ms < c.final_word_ms ==> out.to == c.done || out.to == n - 1
            }
            &&& !same ==> after.idle_steps == 0
            &&& same && still <= u32::MAX ==> after.idle_steps == still
            &&& after.partial_len == n
            &&& n > 0 ==> after.partial_last == Some(words[n - 1])
            &&& n == 0 ==> after.partial_last is None
            &&& after.chunk_ms == c.chunk_ms && after.final_word_ms == c.final_word_ms
        }),
{
    if c.final_word_ms > 0 {
        assert(0 * c.chunk_ms < c.final_word_ms);
    }
}

/// What a committed word gains later is a word of its own: exactly what makes
/// the word as committed into the word as it is now. A word that changed in
/// another way gains nothing.
pub proof fn law_a_committed_word_gains_its_rest(
    c: Commits,
    steps: u32,
    words: Seq<Seq<char>>,
    all: bool,
)
    requires
        0 < c.done <= words.len(),
        c.committed_last is Some,
    ensures
        ({
            let (out, after) = c.step(steps, words, all);
            let was = c.committed_last->0;
            let word = words[c.done - 1];
            &&& out.suffix matches Some(more) ==> more.len() > 0 && was + more == word
            &&& out.suffix is None ==> forall|more: Seq<char>|
                more.len() > 0 ==> #[trigger] (was + more) != word
            &&& out.to > c.done ==> after.committed_last == Some(words[out.to - 1])
            &&& out.to == c.done && out.suffix is Some ==> after.committed_last == Some(word)
            &&& out.to == c.done && out.suffix is None ==> after.committed_last == c.committed_last
        }),
{
    let out = c.step(steps, words, all).0;
    let was = c.committed_last->0;
    let word = words[c.done - 1];
    if out.suffix is Some {
        assert(was + out.suffix->0 =~= word);
    } else {
        assert forall|more: Seq<char>| more.len() > 0 implies #[trigger] (was + more) != word by {
            if was + more == word {
                assert(was =~= word.take(was.len() as int));
                assert(was.is_prefix_of(word));
            }
        }
    }
}

/// Steps that all see the same words.
pub open spec fn stand_still(c: Commits, words: Seq<Seq<char>>, steps: Seq<u32>) -> Commits
    decreases steps.len(),
{
    if steps.len() == 0 {
        c
    } else {
        stand_still(c, words, steps.drop_last()).step(steps.last(), words, false).1
    }
}

/// Decode steps in all.
pub open spec fn steps_in(steps: Seq<u32>) -> nat
    decreases steps.len(),
{
    if steps.len() == 0 {
        0
    } else {
        steps_in(steps.drop_last()) + steps.last() as nat
    }
}

/// However the decode steps come, a last word that has just changed is committed
/// when the steps since then make up `final_word_ms` of audio, and not before.
pub proof fn law_stillness_adds_up(c: Commits, words: Seq<Seq<char>>, steps: Seq<u32>)
    requires
        words.len() > 0,
        c.partial_len == words.len(),
        c.partial_last == Some(words[words.len() - 1]),
        c.idle_steps == 0,
        0 <= c.done < words.len(),
        c.final_word_ms > 0,
        steps.len() > 0,
        steps_in(steps) <= u32::MAX,
    ensures
        ({
            let after = stand_still(c, words, steps);
            &&& after.idle_steps == steps_in(steps)
            &&& after.done == words.len() <==> steps_in(steps) * c.chunk_ms >= c.final_word_ms
            &&& after.done == words.len() || after.done == words.len() - 1
        }),
    decreases steps.len(),
{
    let before = stand_still(c, words, steps.drop_last());
    let s = steps_in(steps.drop_last());
    if steps.len() > 1 {
        law_stillness_adds_up(c, words, steps.drop_last());
        lemma_still_settings(c, words, steps.drop_last());
        assert(s * c.chunk_ms <= steps_in(steps) * c.chunk_ms) by (nonlinear_arith)
            requires
                s <= steps_in(steps),
                0 <= c.chunk_ms,
        ;
    } else {
        assert(steps.drop_last() =~= seq![]);
    }
    law_the_last_word_must_stand_still(before, steps.last(), words, false);
}

proof fn lemma_still_settings(c: Commits, words: Seq<Seq<char>>, steps: Seq<u32>)
    requires
        words.len() > 0,
        steps.len() > 0,
    ensures
        ({
            let after = stand_still(c, words, steps);
            &&& after.partial_len == words.len()
            &&& after.partial_last == Some(words[words.len() - 1])
            &&& after.chunk_ms == c.chunk_ms
            &&& after.final_word_ms == c.final_word_ms
        }),
    decreases steps.len(),
{
    if steps.len() > 1 {
        lemma_still_settings(c, words, steps.drop_last());
    } else {
        assert(stand_still(c, words, steps.drop_last()) == c);
    }
}

/// Blocks without speech, one behind the other.
pub open spec fn silence<T>(g: Gate<T>, blocks: Seq<Seq<T>>) -> Gate<T>
    decreases blocks.len(),
{
    if blocks.len() == 0 {
        g
    } else {
        silence(g, blocks.drop_last()).feed(blocks.last(), false).1
    }
}

/// All samples of blocks.
pub open spec fn samples_of<T>(blocks: Seq<Seq<T>>) -> Seq<T>
    decreases blocks.len(),
{
    if blocks.len() == 0 {
        seq![]
    } else {
        samples_of(blocks.drop_last()) + blocks.last()
    }
}

/// The end of a run of samples, `n` long or all of it.
pub open spec fn tail_of<T>(samples: Seq<T>, n: nat) -> Seq<T> {
    if samples.len() > n {
        samples.skip(samples.len() - n)
    } else {
        samples
    }
}

proof fn lemma_silence<T>(g: Gate<T>, blocks: Seq<Seq<T>>)
    requires
        !g.in_speech,
        g.preroll.len() == 0,
    ensures
        !silence(g, blocks).in_speech,
        silence(g, blocks).preroll_len == g.preroll_len,
        silence(g, blocks).preroll == tail_of(samples_of(blocks), g.preroll_len),
    decreases blocks.len(),
{
    if blocks.len() > 0 {
        lemma_silence(g, blocks.drop_last());
        let head = samples_of(blocks.drop_last());
        let kept = tail_of(head, g.preroll_len);
        assert(tail_of(kept + blocks.last(), g.preroll_len) =~= tail_of(
            head + blocks.last(),
            g.preroll_len,
        ));
        assert(silence(g, blocks).preroll =~= tail_of(kept + blocks.last(), g.preroll_len));
    } else {
        assert(g.preroll =~= tail_of(samples_of(blocks), g.preroll_len));
    }
}

/// Speech starts with the block it is heard in and the audio just before it:
/// the last `preroll_len` samples of all that was heard since the last reset.
/// Speech then goes on without an event until a block without it ends it.
pub proof fn law_speech_starts_with_its_preroll<T>(
    g: Gate<T>,
    blocks: Seq<Seq<T>>,
    block: Seq<T>,
    next: Seq<T>,
)
    requires
        !g.in_speech,
        g.preroll.len() == 0,
    ensures
        ({
            let quiet = silence(g, blocks);
            let (start, speaking) = quiet.feed(block, true);
            &&& start == GateEvent::<T>::Start(
                tail_of(samples_of(blocks) + block, g.preroll_len),
            )
            &&& quiet.feed(block, false).0 == GateEvent::<T>::Same
            &&& speaking.in_speech
            &&& speaking.feed(next, true).0 == GateEvent::<T>::Same
            &&& speaking.feed(next, true).1.in_speech
            &&& speaking.feed(next, false).0 == GateEvent::<T>::End
            &&& !speaking.feed(next, false).1.in_speech
            &&& speaking.feed(next, false).1.preroll.len() == 0
        }),
{
    lemma_silence(g, blocks);
    let quiet = silence(g, blocks);
    let head = samples_of(blocks);
    assert(quiet.kept(block) =~= tail_of(tail_of(head, g.preroll_len) + block, g.preroll_len));
    assert(tail_of(tail_of(head, g.preroll_len) + block, g.preroll_len) =~= tail_of(
        head + block,
        g.preroll_len,
    ));
}

/// The beginning and the end of speech are each told once, and it is remembered
/// whether there was speech in the last block.
pub proof fn law_speech_begins_and_ends_once<T>(g: Gate<T>, block: Seq<T>, speech: bool)
    ensures
        ({
            let (event, after) = g.feed(block, speech);
            &&& event is Start <==> !g.in_speech && speech
            &&& event is End <==> g.in_speech && !speech
            &&& event is Same <==> g.in_speech == speech
            &&& after.in_speech == speech
            &&& after.preroll_len == g.preroll_len
        }),
{
}

} // verus!
