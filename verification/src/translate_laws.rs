//! What translating a clause sentence by sentence keeps: the sentences are the
//! clause, and the translation is all of its parts.
use vstd::prelude::*;

use crate::chars::{spaced_words, trimmed, trimmed_end, trimmed_start, white_space};
use crate::translate::{
    abbreviated, abbreviations, cut_up_to, decode_cap, ends_with, lemma_start, lemma_trim_keeps,
    lemma_visible_adds, may_break, sentences_of, spaced, together, uppercase, visible, with_text,
    Cut,
};

verus! {

/// The words of texts, one text behind the other.
pub open spec fn words_together(list: Seq<Seq<char>>) -> Seq<Seq<char>>
    decreases list.len(),
{
    if list.len() == 0 {
        seq![]
    } else {
        words_together(list.drop_last()) + spaced_words(list.last())
    }
}

proof fn lemma_words_apart(a: Seq<char>, b: Seq<char>)
    ensures
        spaced_words(a.push(' ') + b) == spaced_words(a) + spaced_words(b),
    decreases b.len(),
{
    let all = a.push(' ') + b;
    if b.len() == 0 {
        assert(all =~= a.push(' '));
        assert(all.drop_last() =~= a);
        assert(spaced_words(a) + spaced_words(b) =~= spaced_words(a));
    } else {
        let rest = b.drop_last();
        lemma_words_apart(a, rest);
        assert(all.drop_last() =~= a.push(' ') + rest);
        assert(all.last() == b.last());
        let head = spaced_words(rest);
        if white_space(b.last()) {
        } else if rest.len() > 0 && !white_space(rest.last()) {
            assert(all.drop_last().last() == rest.last());
            lemma_word_open(rest);
            let both = spaced_words(a) + head;
            assert(spaced_words(all) =~= both.update(
                both.len() - 1,
                both.last().push(b.last()),
            ));
            assert(spaced_words(all) =~= spaced_words(a) + spaced_words(b));
        } else {
            assert(white_space(all.drop_last().last())) by {
                if rest.len() == 0 {
                    assert(all.drop_last().last() == ' ');
                } else {
                    assert(all.drop_last().last() == rest.last());
                }
            }
            assert(spaced_words(all) =~= spaced_words(a) + spaced_words(b));
        }
    }
}

proof fn lemma_word_open(s: Seq<char>)
    requires
        s.len() > 0,
        !white_space(s.last()),
    ensures
        spaced_words(s).len() > 0,
    decreases s.len(),
{
    let rest = s.drop_last();
    if rest.len() > 0 && !white_space(rest.last()) {
        lemma_word_open(rest);
    }
}

proof fn lemma_words_behind_space(c: char, s: Seq<char>)
    requires
        white_space(c),
    ensures
        spaced_words(seq![c] + s) == spaced_words(s),
    decreases s.len(),
{
    let all = seq![c] + s;
    if s.len() == 0 {
        assert(all =~= seq![c]);
        assert(all.drop_last() =~= seq![]);
        assert(spaced_words(all.drop_last()) =~= seq![]);
    } else {
        let rest = s.drop_last();
        lemma_words_behind_space(c, rest);
        assert(all.drop_last() =~= seq![c] + rest);
        if rest.len() > 0 {
            assert(all.drop_last().last() == rest.last());
        } else {
            assert(all.drop_last().last() == c);
        }
    }
}

proof fn lemma_words_trimmed(s: Seq<char>)
    ensures
        spaced_words(trimmed(s)) == spaced_words(s),
{
    lemma_words_trimmed_start(s);
    lemma_words_trimmed_end(trimmed_start(s));
}

proof fn lemma_words_trimmed_start(s: Seq<char>)
    ensures
        spaced_words(trimmed_start(s)) == spaced_words(s),
    decreases s.len(),
{
    if s.len() > 0 && white_space(s[0]) {
        lemma_words_trimmed_start(s.drop_first());
        lemma_words_behind_space(s[0], s.drop_first());
        assert(seq![s[0]] + s.drop_first() =~= s);
    }
}

proof fn lemma_words_trimmed_end(s: Seq<char>)
    ensures
        spaced_words(trimmed_end(s)) == spaced_words(s),
    decreases s.len(),
{
    if s.len() > 0 && white_space(s.last()) {
        lemma_words_trimmed_end(s.drop_last());
    }
}

/// The joined translation holds every part, however many there are: but for
/// white space it is the parts one behind the other, and its words are theirs.
pub proof fn law_joining_keeps_every_part(list: Seq<Seq<char>>)
    ensures
        visible(spaced(list)) == visible(together(list)),
        spaced_words(spaced(list)) == words_together(list),
    decreases list.len(),
{
    if list.len() == 0 {
        assert(spaced(list) =~= seq![]);
    } else {
        let head = list.drop_last();
        let part = list.last();
        law_joining_keeps_every_part(head);
        lemma_trim_keeps(part);
        lemma_words_trimmed(part);
        lemma_visible_adds(together(head), part);
        if list.len() == 1 {
            assert(head =~= seq![]);
            assert(together(head) =~= seq![]);
            assert(list[0] == part);
            assert(together(list) =~= part);
            assert(words_together(head) =~= seq![]);
            assert(words_together(list) =~= spaced_words(part));
        } else {
            let s = spaced(head);
            lemma_visible_adds(s.push(' '), trimmed(part));
            assert(s.push(' ').drop_last() =~= s);
            lemma_words_apart(s, trimmed(part));
        }
    }
}

/// A sentence mark at `i` is followed by white space and something that a
/// sentence begins with.
pub open spec fn break_candidate(s: Seq<char>, i: int) -> bool {
    &&& 0 <= i && i + 2 < s.len()
    &&& s[i] == '.' || s[i] == '!' || s[i] == '?'
    &&& white_space(s[i + 1])
    &&& uppercase(s[i + 2]) || s[i + 2] == '\u{BF}' || s[i + 2] == '\u{A1}' || s[i + 2] == '"'
        || s[i + 2] == '\u{201C}'
}

/// The text ends with an abbreviation that ends no sentence.
pub open spec fn shortened(s: Seq<char>) -> bool {
    ||| ends_with(s, "Mr."@)
    ||| ends_with(s, "Mrs."@)
    ||| ends_with(s, "Ms."@)
    ||| ends_with(s, "Dr."@)
    ||| ends_with(s, "St."@)
    ||| ends_with(s, "Jr."@)
    ||| ends_with(s, "a.m."@)
    ||| ends_with(s, "p.m."@)
}

/// A text alone in a list, or nothing if it is blank.
pub open spec fn alone(s: Seq<char>) -> Seq<Seq<char>> {
    if trimmed(s).len() > 0 {
        seq![trimmed(s)]
    } else {
        seq![]
    }
}

proof fn lemma_shortened(s: Seq<char>)
    ensures
        abbreviated(s) == shortened(s),
{
    let list = abbreviations();
    assert(list[0] == "Mr."@ && list[1] == "Mrs."@ && list[2] == "Ms."@ && list[3] == "Dr."@
        && list[4] == "St."@ && list[5] == "Jr."@ && list[6] == "a.m."@ && list[7] == "p.m."@);
    if shortened(s) {
        assert(ends_with(s, list[0]) || ends_with(s, list[1]) || ends_with(s, list[2])
            || ends_with(s, list[3]) || ends_with(s, list[4]) || ends_with(s, list[5])
            || ends_with(s, list[6]) || ends_with(s, list[7]));
    }
    if abbreviated(s) {
        let k = choose|k: int| 0 <= k < list.len() && ends_with(s, #[trigger] list[k]);
        assert(k == 0 || k == 1 || k == 2 || k == 3 || k == 4 || k == 5 || k == 6 || k == 7);
    }
}

proof fn lemma_uncut(s: Seq<char>, n: int)
    requires
        0 <= n <= s.len(),
        forall|i: int| 0 <= i < n ==> !#[trigger] break_candidate(s, i) || shortened(s.take(i + 1)),
    ensures
        cut_up_to(s, n) == (Cut { start: 0, out: seq![] }),
    decreases n,
{
    if n > 0 {
        lemma_uncut(s, n - 1);
        lemma_shortened(s.take(n));
        assert(s.subrange(0, n) =~= s.take(n));
        assert(may_break(s, n - 1) ==> break_candidate(s, n - 1));
    }
}

/// A text stays one sentence where no mark is followed by white space and the
/// start of a sentence, or where each such mark ends an abbreviation.
pub proof fn law_one_sentence_stays_whole(s: Seq<char>)
    requires
        forall|i: int|
            #![trigger break_candidate(s, i)]
            break_candidate(s, i) ==> shortened(s.take(i + 1)),
    ensures
        sentences_of(s) == alone(s),
{
    lemma_uncut(s, s.len() as int);
    assert(s.skip(0) =~= s);
    assert(sentences_of(s) =~= alone(s));
}

/// What stands open at the end of a text: its last sentence.
pub open spec fn open_sentence(s: Seq<char>) -> Seq<char> {
    s.skip(cut_up_to(s, s.len() as int).start)
}

proof fn lemma_cut_prefix(a: Seq<char>, b: Seq<char>, n: int)
    requires
        0 <= n < a.len(),
        b.len() > 0 ==> !uppercase(b[0]) && b[0] != '\u{BF}' && b[0] != '\u{A1}' && b[0] != '"'
            && b[0] != '\u{201C}',
    ensures
        cut_up_to(a + b, n) == cut_up_to(a, n),
    decreases n,
{
    if n > 0 {
        lemma_cut_prefix(a, b, n - 1);
        let start = cut_up_to(a, n - 1).start;
        lemma_start(a, n - 1);
        assert((a + b).subrange(start, n) =~= a.subrange(start, n));
        let i = n - 1;
        assert((a + b)[i] == a[i] && (a + b)[i + 1] == a[i + 1]);
        if i + 2 < a.len() {
            assert((a + b)[i + 2] == a[i + 2]);
        } else if b.len() > 0 {
            assert((a + b)[i + 2] == b[0]);
        }
    }
}

proof fn lemma_cut_suffix(a: Seq<char>, b: Seq<char>, k: int, out: Seq<Seq<char>>)
    requires
        0 <= k <= b.len(),
        cut_up_to(a + b, a.len() as int) == (Cut { start: a.len() as int, out }),
    ensures
        cut_up_to(a + b, a.len() + k) == (Cut {
            start: a.len() + cut_up_to(b, k).start,
            out: out + cut_up_to(b, k).out,
        }),
    decreases k,
{
    if k == 0 {
        assert(out + cut_up_to(b, 0).out =~= out);
    } else {
        lemma_cut_suffix(a, b, k - 1, out);
        lemma_start(b, k - 1);
        let before = cut_up_to(b, k - 1);
        let i = k - 1;
        let n = a.len();
        assert((a + b).subrange(n + before.start, n + k) =~= b.subrange(before.start, k));
        assert((a + b)[n + i] == b[i]);
        if i + 2 < b.len() {
            assert((a + b)[n + i + 1] == b[i + 1]);
            assert((a + b)[n + i + 2] == b[i + 2]);
        }
        let head = b.subrange(before.start, k);
        assert(with_text(out + before.out, head) =~= out + with_text(before.out, head));
        assert(out + cut_up_to(b, k).out =~= out + cut_up_to(b, k).out);
    }
}

/// Where a text ends in a sentence mark that ends no abbreviation, and what
/// follows begins with white space and the start of a sentence, the sentences of
/// both together are those of the one and then those of the other.
pub proof fn law_sentences_end_at_marks(a: Seq<char>, b: Seq<char>)
    requires
        a.len() > 0,
        b.len() > 1,
        a[a.len() - 1] == '.' || a[a.len() - 1] == '!' || a[a.len() - 1] == '?',
        white_space(b[0]),
        !uppercase(b[0]),
        uppercase(b[1]) || b[1] == '\u{BF}' || b[1] == '\u{A1}' || b[1] == '"' || b[1]
            == '\u{201C}',
        !shortened(open_sentence(a)),
    ensures
        sentences_of(a + b) == sentences_of(a) + sentences_of(b),
{
    let n = a.len() as int;
    let all = a + b;
    lemma_cut_prefix(a, b, n - 1);
    lemma_start(a, n - 1);
    let before = cut_up_to(a, n - 1);
    assert(!may_break(a, n - 1));
    assert(cut_up_to(a, n) == before);
    assert(all[n - 1] == a[n - 1] && all[n] == b[0] && all[n + 1] == b[1]);
    assert(may_break(all, n - 1));
    let head = a.skip(before.start);
    assert(all.subrange(before.start, n) =~= head);
    lemma_shortened(head);
    let out = with_text(before.out, head);
    assert(cut_up_to(all, n) == (Cut { start: n, out }));
    assert(sentences_of(a) == out);
    lemma_cut_suffix(a, b, b.len() as int, out);
    lemma_start(b, b.len() as int);
    let cut = cut_up_to(b, b.len() as int);
    assert(all.skip(n + cut.start) =~= b.skip(cut.start));
    assert(with_text(out + cut.out, b.skip(cut.start)) =~= out + with_text(
        cut.out,
        b.skip(cut.start),
    ));
}

/// No sentence is blank, and none has white space around it.
pub proof fn law_sentences_are_trimmed(s: Seq<char>, k: int)
    requires
        0 <= k < sentences_of(s).len(),
    ensures
        sentences_of(s)[k].len() > 0,
        !white_space(sentences_of(s)[k][0]),
        !white_space(sentences_of(s)[k][sentences_of(s)[k].len() - 1]),
{
    let cut = cut_up_to(s, s.len() as int);
    let rest = s.skip(cut.start);
    if k < cut.out.len() {
        lemma_cut_is_trimmed(s, s.len() as int, k);
    } else {
        lemma_trimmed_ends(rest);
    }
}

proof fn lemma_cut_is_trimmed(s: Seq<char>, n: int, k: int)
    requires
        0 <= k < cut_up_to(s, n).out.len(),
    ensures
        cut_up_to(s, n).out[k].len() > 0,
        !white_space(cut_up_to(s, n).out[k][0]),
        !white_space(cut_up_to(s, n).out[k][cut_up_to(s, n).out[k].len() - 1]),
    decreases n,
{
    if n > 0 {
        let before = cut_up_to(s, n - 1);
        if k < before.out.len() {
            lemma_cut_is_trimmed(s, n - 1, k);
        } else {
            lemma_trimmed_ends(s.subrange(before.start, n));
        }
    }
}

proof fn lemma_trimmed_ends(s: Seq<char>)
    ensures
        trimmed(s).len() > 0 ==> !white_space(trimmed(s)[0]) && !white_space(
            trimmed(s)[trimmed(s).len() - 1],
        ),
{
    lemma_start_trimmed(s);
    lemma_end_trimmed(trimmed_start(s));
}

proof fn lemma_start_trimmed(s: Seq<char>)
    ensures
        trimmed_start(s).len() > 0 ==> !white_space(trimmed_start(s)[0]),
    decreases s.len(),
{
    if s.len() > 0 && white_space(s[0]) {
        lemma_start_trimmed(s.drop_first());
    }
}

proof fn lemma_end_trimmed(s: Seq<char>)
    ensures
        trimmed_end(s).len() > 0 ==> !white_space(trimmed_end(s)[trimmed_end(s).len() - 1])
            && trimmed_end(s)[0] == s[0],
    decreases s.len(),
{
    if s.len() > 0 && white_space(s.last()) {
        lemma_end_trimmed(s.drop_last());
        if trimmed_end(s).len() > 0 {
            assert(s.drop_last()[0] == s[0]);
        }
    }
}

/// The decode length cap grows by four for each source word, from sixteen on, and
/// stays at 256 from sixty words on.
pub proof fn law_decoding_is_capped(words: int)
    requires
        0 <= words,
    ensures
        decode_cap(0) == 16,
        words < 60 ==> decode_cap(words + 1) == decode_cap(words) + 4,
        words >= 60 ==> decode_cap(words) == 256,
{
}

} // verus!
