//! Fuzzy matching of caption text against a reference transcript.
//!
//! The target of an utterance is its last few content words (stop-words removed;
//! lowercase, punctuation stripped). A cue shows it if its content words contain
//! the target's last word plus enough of the others, in order, within a short
//! span, and with a small per-word edit distance.
use vstd::prelude::*;

use crate::chars::{
    alphanumeric, char_lists, from_chars, lowercase, runs, same_text, split_runs, texts, to_chars,
};

verus! {

/// Words too common to tell utterances apart.
pub open spec fn stop_word(w: Seq<char>) -> bool {
    ||| w == "a"@
    ||| w == "an"@
    ||| w == "the"@
    ||| w == "and"@
    ||| w == "or"@
    ||| w == "but"@
    ||| w == "if"@
    ||| w == "of"@
    ||| w == "to"@
    ||| w == "in"@
    ||| w == "on"@
    ||| w == "at"@
    ||| w == "by"@
    ||| w == "for"@
    ||| w == "with"@
    ||| w == "from"@
    ||| w == "as"@
    ||| w == "is"@
    ||| w == "was"@
    ||| w == "are"@
    ||| w == "were"@
    ||| w == "be"@
    ||| w == "been"@
    ||| w == "am"@
    ||| w == "it"@
    ||| w == "its"@
    ||| w == "this"@
    ||| w == "that"@
    ||| w == "these"@
    ||| w == "those"@
    ||| w == "he"@
    ||| w == "she"@
    ||| w == "they"@
    ||| w == "we"@
    ||| w == "you"@
    ||| w == "i"@
    ||| w == "me"@
    ||| w == "him"@
    ||| w == "her"@
    ||| w == "them"@
    ||| w == "us"@
    ||| w == "my"@
    ||| w == "his"@
    ||| w == "their"@
    ||| w == "our"@
    ||| w == "your"@
    ||| w == "not"@
    ||| w == "no"@
    ||| w == "so"@
    ||| w == "do"@
    ||| w == "did"@
    ||| w == "had"@
    ||| w == "has"@
    ||| w == "have"@
    ||| w == "then"@
    ||| w == "there"@
    ||| w == "which"@
    ||| w == "who"@
    ||| w == "what"@
    ||| w == "all"@
    ||| w == "one"@
    ||| w == "into"@
    ||| w == "upon"@
    ||| w == "up"@
    ||| w == "out"@
    ||| w == "would"@
    ||| w == "could"@
    ||| w == "should"@
    ||| w == "will"@
    ||| w == "shall"@
    ||| w == "can"@
    ||| w == "may"@
    ||| w == "might"@
    ||| w == "must"@
    ||| w == "s"@
}

fn is_stop_word(w: &str) -> (r: bool)
    ensures
        r == stop_word(w@),
{
same_text(w, "a") || same_text(w, "an") || same_text(w, "the") || same_text(w, "and") || same_text(w, "or") || same_text(w, "but") || same_text(w, "if") || same_text(w, "of") || same_text(w, "to") || same_text(w, "in") || same_text(w, "on") || same_text(w, "at") || same_text(w, "by") || same_text(w, "for") || same_text(w, "with") || same_text(w, "from") || same_text(w, "as") || same_text(w, "is") || same_text(w, "was") || same_text(w, "are") || same_text(w, "were") || same_text(w, "be") || same_text(w, "been") || same_text(w, "am") || same_text(w, "it") || same_text(w, "its") || same_text(w, "this") || same_text(w, "that") || same_text(w, "these") || same_text(w, "those") || same_text(w, "he") || same_text(w, "she") || same_text(w, "they") || same_text(w, "we") || same_text(w, "you") || same_text(w, "i") || same_text(w, "me") || same_text(w, "him") || same_text(w, "her") || same_text(w, "them") || same_text(w, "us") || same_text(w, "my") || same_text(w, "his") || same_text(w, "their") || same_text(w, "our") || same_text(w, "your") || same_text(w, "not") || same_text(w, "no") || same_text(w, "so") || same_text(w, "do") || same_text(w, "did") || same_text(w, "had") || same_text(w, "has") || same_text(w, "have") || same_text(w, "then") || same_text(w, "there") || same_text(w, "which") || same_text(w, "who") || same_text(w, "what") || same_text(w, "all") || same_text(w, "one") || same_text(w, "into") || same_text(w, "upon") || same_text(w, "up") || same_text(w, "out") || same_text(w, "would") || same_text(w, "could") || same_text(w, "should") || same_text(w, "will") || same_text(w, "shall") || same_text(w, "can") || same_text(w, "may") || same_text(w, "might") || same_text(w, "must") || same_text(w, "s")
}

/// The letters and digits of a run.
pub open spec fn letters(s: Seq<char>) -> Seq<char>
    decreases s.len(),
{
    if s.len() == 0 {
        seq![]
    } else {
        let head = letters(s.drop_last());
        if alphanumeric(s.last()) {
            head.push(s.last())
        } else {
            head
        }
    }
}

/// Which characters belong to words: letters, digits and apostrophes.
pub open spec fn word_flags(s: Seq<char>) -> Seq<bool> {
    s.map_values(|c: char| alphanumeric(c) || c == '\'')
}

/// The words of a list of runs: their letters and digits in lower case, unless
/// nothing is left.
pub open spec fn lowered(pieces: Seq<Seq<char>>) -> Seq<Seq<char>>
    decreases pieces.len(),
{
    if pieces.len() == 0 {
        seq![]
    } else {
        let head = lowered(pieces.drop_last());
        let word = lowercase(letters(pieces.last()));
        if word.len() == 0 {
            head
        } else {
            head.push(word)
        }
    }
}

/// The words of a text.
pub open spec fn token_list(s: Seq<char>) -> Seq<Seq<char>> {
    lowered(runs(s, word_flags(s)))
}

/// The words that are no stop-words.
pub open spec fn contentful(words: Seq<Seq<char>>) -> Seq<Seq<char>>
    decreases words.len(),
{
    if words.len() == 0 {
        seq![]
    } else {
        let head = contentful(words.drop_last());
        if stop_word(words.last()) {
            head
        } else {
            head.push(words.last())
        }
    }
}

/// The letters and digits of a run, in lower case.
fn lower_letters(piece: &Vec<char>) -> (r: String)
    ensures
        r@ == lowercase(letters(piece@)),
{
    let mut kept: Vec<char> = Vec::new();
    for i in 0..piece.len()
        invariant
            kept@ == letters(piece@.take(i as int)),
    {
        assert(piece@.take(i + 1).drop_last() =~= piece@.take(i as int));
        let c = piece[i];
        if c.is_alphanumeric() {
            kept.push(c);
        }
    }
    assert(piece@.take(piece@.len() as int) =~= piece@);
    from_chars(kept.as_slice()).as_str().to_lowercase()
}

/// The words of a text: lower case, without punctuation. Apostrophes do not
/// separate words.
pub fn tokens(s: &str) -> (r: Vec<String>)
    ensures
        texts(r@) == token_list(s@),
{
    let all = to_chars(s);
    let mut keep: Vec<bool> = Vec::new();
    for i in 0..all.len()
        invariant
            keep@ == word_flags(all@.take(i as int)),
    {
        let c = all[i];
        assert(all@.take(i + 1) =~= all@.take(i as int).push(c));
        let ghost before = keep@;
        keep.push(c.is_alphanumeric() || c == '\'');
        assert(word_flags(all@.take(i + 1)) =~= keep@);
    }
    assert(all@.take(all@.len() as int) =~= all@);
    let pieces = split_runs(all.as_slice(), keep.as_slice());
    let ghost list = char_lists(pieces@);
    let mut r: Vec<String> = Vec::new();
    assert(texts(r@) =~= lowered(list.take(0)));
    for i in 0..pieces.len()
        invariant
            list == char_lists(pieces@),
            texts(r@) == lowered(list.take(i as int)),
    {
        assert(list.take(i + 1).drop_last() =~= list.take(i as int));
        assert(list.take(i + 1).last() == pieces@[i as int]@);
        let word = lower_letters(&pieces[i]);
        let ghost before = texts(r@);
        if !word.as_str().is_empty() {
            r.push(word);
            assert(texts(r@) =~= before.push(word@));
        }
    }
    assert(list.take(list.len() as int) =~= list);
    r
}

/// The words of a text that are no stop-words.
pub fn content_words(s: &str) -> (r: Vec<String>)
    ensures
        texts(r@) == contentful(token_list(s@)),
{
    without_stop_words(tokens(s))
}

/// Drops the stop-words of a list.
pub fn without_stop_words(words: Vec<String>) -> (r: Vec<String>)
    ensures
        texts(r@) == contentful(texts(words@)),
{
    let ghost all = texts(words@);
    let mut r: Vec<String> = Vec::new();
    assert(texts(r@) =~= contentful(all.take(0)));
    for i in 0..words.len()
        invariant
            all == texts(words@),
            texts(r@) == contentful(all.take(i as int)),
    {
        assert(all.take(i + 1).drop_last() =~= all.take(i as int));
        assert(all.take(i + 1).last() == words@[i as int]@);
        let ghost before = texts(r@);
        if !is_stop_word(words[i].as_str()) {
            let w = words[i].clone();
            r.push(w);
            assert(texts(r@) =~= before.push(w@));
        }
    }
    assert(all.take(all.len() as int) =~= all);
    r
}

pub open spec fn min(a: int, b: int) -> int {
    if a <= b {
        a
    } else {
        b
    }
}

/// Edit distance: the fewest single-character insertions, deletions and
/// replacements that turn one text into the other.
pub open spec fn distance(a: Seq<char>, b: Seq<char>) -> int
    decreases a.len(), b.len(),
{
    if a.len() == 0 {
        b.len() as int
    } else if b.len() == 0 {
        a.len() as int
    } else {
        min(
            distance(a.drop_last(), b.drop_last()) + (if a.last() == b.last() {
                0int
            } else {
                1
            }),
            min(distance(a.drop_last(), b) + 1, distance(a, b.drop_last()) + 1),
        )
    }
}

/// An edit distance is at least the difference of the lengths and at most the
/// greater length.
pub proof fn law_distance_is_bounded(a: Seq<char>, b: Seq<char>)
    ensures
        0 <= distance(a, b),
        a.len() - b.len() <= distance(a, b),
        b.len() - a.len() <= distance(a, b),
        distance(a, b) <= a.len() || distance(a, b) <= b.len(),
    decreases a.len(), b.len(),
{
    if a.len() > 0 && b.len() > 0 {
        law_distance_is_bounded(a.drop_last(), b.drop_last());
        law_distance_is_bounded(a.drop_last(), b);
        law_distance_is_bounded(a, b.drop_last());
    }
}

/// The edit distance is the same both ways.
pub proof fn law_distance_is_symmetric(a: Seq<char>, b: Seq<char>)
    ensures
        distance(a, b) == distance(b, a),
    decreases a.len(), b.len(),
{
    if a.len() > 0 && b.len() > 0 {
        law_distance_is_symmetric(a.drop_last(), b.drop_last());
        law_distance_is_symmetric(a.drop_last(), b);
        law_distance_is_symmetric(a, b.drop_last());
    }
}

/// The edit distance is zero between equal texts only.
pub proof fn law_distance_zero_means_equal(a: Seq<char>, b: Seq<char>)
    ensures
        distance(a, b) == 0 <==> a == b,
    decreases a.len(),
{
    if a.len() == 0 || b.len() == 0 {
        if distance(a, b) == 0 {
            assert(a =~= b);
        }
    } else {
        law_distance_zero_means_equal(a.drop_last(), b.drop_last());
        law_distance_is_bounded(a.drop_last(), b);
        law_distance_is_bounded(a, b.drop_last());
        law_distance_is_bounded(a.drop_last(), b.drop_last());
        if distance(a, b) == 0 {
            assert(a =~= a.drop_last().push(a.last()));
            assert(b =~= b.drop_last().push(b.last()));
        }
    }
}

fn levenshtein(a: &str, b: &str) -> (r: usize)
    ensures
        r == distance(a@, b@),
{
    let a = to_chars(a);
    let b = to_chars(b);
    // Distances from a prefix of `a` to the prefixes of `b` of lengths 1, 2, ...
    let mut prev: Vec<usize> = Vec::new();
    assert(a@.take(0).len() == 0);
    for j in 0..b.len()
        invariant
            prev@.len() == j,
            forall|k: int|
                0 <= k < j ==> #[trigger] prev@[k] == distance(a@.take(0), b@.take(k + 1)),
    {
        prev.push(j + 1);
    }
    let mut i: usize = 0;
    while i < a.len()
        invariant
            i <= a@.len(),
            prev@.len() == b@.len(),
            forall|k: int|
                0 <= k < b@.len() ==> #[trigger] prev@[k] == distance(
                    a@.take(i as int),
                    b@.take(k + 1),
                ),
        decreases a@.len() - i,
    {
        let ghost shorter = a@.take(i as int);
        let ghost longer = a@.take(i + 1);
        assert(longer.drop_last() =~= shorter);
        let mut cur: Vec<usize> = Vec::new();
        for j in 0..b.len()
            invariant
                i < a.len(),
                shorter == a@.take(i as int),
                longer == a@.take(i + 1),
                longer.drop_last() == shorter,
                prev@.len() == b@.len(),
                cur@.len() == j,
                forall|k: int|
                    0 <= k < b@.len() ==> #[trigger] prev@[k] == distance(shorter, b@.take(k + 1)),
                forall|k: int| 0 <= k < j ==> #[trigger] cur@[k] == distance(longer, b@.take(k + 1)),
        {
            let ghost upto = b@.take(j + 1);
            let ghost before = b@.take(j as int);
            proof {
                assert(upto.drop_last() =~= before);
                law_distance_is_bounded(shorter, before);
                assert(a@.len() == a.len() && b@.len() == b.len());
                if j == 0 {
                    assert(before =~= seq![]);
                } else {
                    assert(prev@[j - 1] == distance(shorter, b@.take(j as int)));
                    assert(cur@[j - 1] == distance(longer, b@.take(j as int)));
                }
                assert(distance(shorter, Seq::<char>::empty()) == shorter.len());
                assert(distance(longer, Seq::<char>::empty()) == longer.len());
            }
            let diagonal: usize = if j == 0 { i } else { prev[j - 1] };
            let left: usize = if j == 0 { i + 1 } else { cur[j - 1] };
            assert(diagonal == distance(shorter, before));
            assert(left == distance(longer, before));
            let mut best: usize = if a[i] == b[j] { diagonal } else { diagonal + 1 };
            let up: usize = prev[j].saturating_add(1);
            if up < best {
                best = up;
            }
            let across: usize = left.saturating_add(1);
            if across < best {
                best = across;
            }
            assert(best == distance(longer, upto));
            cur.push(best);
        }
        prev = cur;
        i = i + 1;
    }
    assert(a@.take(i as int) =~= a@);
    if b.len() == 0 {
        assert(b@ =~= seq![]);
        a.len()
    } else {
        assert(b@.take(b@.len() as int) =~= b@);
        prev[b.len() - 1]
    }
}

/// The edit distance allowed between words of up to `n` characters: 0 (up to 2),
/// 1 (3-7) or 2 (8 and more).
pub open spec fn tolerance(n: nat) -> int {
    if n <= 2 {
        0
    } else if n <= 7 {
        1
    } else {
        2
    }
}

/// Words match if their edit distance is within what their length allows.
pub open spec fn similar(a: Seq<char>, b: Seq<char>) -> bool {
    distance(a, b) <= tolerance(
        if a.len() > b.len() {
            a.len()
        } else {
            b.len()
        },
    )
}

/// Matching does not depend on the order, and every word matches itself.
pub proof fn law_similar_is_symmetric_and_reflexive(a: Seq<char>, b: Seq<char>)
    ensures
        similar(a, b) == similar(b, a),
        similar(a, a),
{
    law_distance_is_symmetric(a, b);
    law_distance_zero_means_equal(a, a);
}

/// Words match if the edit distance is within 0 (<=2 chars), 1 (3-7) or 2 (8+).
pub fn word_eq(a: &str, b: &str) -> (r: bool)
    ensures
        r == similar(a@, b@),
{
    let n: usize = to_chars(a).len();
    let m: usize = to_chars(b).len();
    let len: usize = if n > m { n } else { m };
    let allow: usize = if len <= 2 {
        0
    } else if len <= 7 {
        1
    } else {
        2
    };
    proof {
        law_similar_is_symmetric_and_reflexive(a@, b@);
    }
    levenshtein(a, b) <= allow
}

/// The last cue word in `[lo, hi)` that matches `word`.
pub open spec fn last_similar(cue: Seq<Seq<char>>, word: Seq<char>, lo: int, hi: int) -> Option<int>
    decreases hi - lo,
{
    if hi <= lo {
        None
    } else if similar(cue[hi - 1], word) {
        Some(hi - 1)
    } else {
        last_similar(cue, word, lo, hi - 1)
    }
}

/// How many of the first `n` target words are found in `[lo, pos)`, each before
/// the one after it, looking back from the last; words not found are passed over.
pub open spec fn found_before(
    target: Seq<Seq<char>>,
    cue: Seq<Seq<char>>,
    n: nat,
    lo: int,
    pos: int,
) -> nat
    decreases n,
{
    if n == 0 {
        0
    } else {
        match last_similar(cue, target[n - 1], lo, pos) {
            Some(p) => 1 + found_before(target, cue, (n - 1) as nat, lo, p),
            None => found_before(target, cue, (n - 1) as nat, lo, pos),
        }
    }
}

/// How many target words a cue shows that ends in the target's last word at `e`:
/// the others may lie within `len + 1` words before it.
pub open spec fn found_at(target: Seq<Seq<char>>, cue: Seq<Seq<char>>, e: int) -> nat {
    if similar(cue[e], target.last()) {
        let lo = if e > target.len() {
            e - target.len() - 1
        } else {
            0
        };
        1 + found_before(target, cue, (target.len() - 1) as nat, lo, e)
    } else {
        0
    }
}

/// The most target words found up to any of the first `n` cue words.
pub open spec fn best_found(target: Seq<Seq<char>>, cue: Seq<Seq<char>>, n: nat) -> nat
    decreases n,
{
    if n == 0 {
        0
    } else {
        let head = best_found(target, cue, (n - 1) as nat);
        let here = found_at(target, cue, n - 1);
        if here > head {
            here
        } else {
            head
        }
    }
}

/// How many target words a cue shows: none unless the last one is among them.
pub open spec fn matched(target: Seq<Seq<char>>, cue: Seq<Seq<char>>) -> nat {
    if target.len() == 0 {
        0
    } else {
        best_found(target, cue, cue.len())
    }
}

/// Returns the number of target words found (0 if the last target word is not
/// found). Target words must appear in order, the others within `len + 1`
/// content words before the last one.
pub fn match_count(target: &[String], cue: &[String]) -> (r: usize)
    ensures
        r == matched(texts(target@), texts(cue@)),
        r <= target@.len(),
{
    let ghost want = texts(target@);
    let ghost have = texts(cue@);
    if target.len() == 0 {
        return 0;
    }
    let mut best: usize = 0;
    for e in 0..cue.len()
        invariant
            want == texts(target@),
            have == texts(cue@),
            target@.len() > 0,
            best == best_found(want, have, e as nat),
            best <= target@.len(),
    {
        assert(have[e as int] == cue@[e as int]@);
        assert(want.last() == target@[target@.len() - 1]@);
        if word_eq(cue[e].as_str(), target[target.len() - 1].as_str()) {
            let lo: usize = if e > target.len() { e - target.len() - 1 } else { 0 };
            let mut n: usize = 1;
            let mut pos: usize = e;
            let mut k: usize = target.len() - 1;
            while k > 0
                invariant
                    want == texts(target@),
                    have == texts(cue@),
                    lo <= pos <= e < cue@.len(),
                    k < target@.len(),
                    n + k <= target.len(),
                    n >= 1,
                    found_at(want, have, e as int) == n + found_before(
                        want,
                        have,
                        k as nat,
                        lo as int,
                        pos as int,
                    ),
                decreases k,
            {
                k = k - 1;
                assert(want[k as int] == target@[k as int]@);
                let mut p: usize = pos;
                let mut hit = false;
                while p > lo && !hit
                    invariant
                        want == texts(target@),
                        have == texts(cue@),
                        k < target@.len(),
                        want[k as int] == target@[k as int]@,
                        lo <= p <= pos < cue@.len(),
                        hit ==> p < pos && last_similar(
                            have,
                            want[k as int],
                            lo as int,
                            pos as int,
                        ) == Some(p as int),
                        !hit ==> last_similar(have, want[k as int], lo as int, pos as int)
                            == last_similar(have, want[k as int], lo as int, p as int),
                    decreases p - lo, (if hit { 0int } else { 1 }),
                {
                    p = p - 1;
                    assert(have[p as int] == cue@[p as int]@);
                    if word_eq(cue[p].as_str(), target[k].as_str()) {
                        hit = true;
                    }
                }
                if hit {
                    n = n + 1;
                    pos = p;
                }
            }
            if n > best {
                best = n;
            }
        }
    }
    best
}

/// How many of `n` target words must be found: all of one or two, else all but
/// one.
pub fn required(n: usize) -> (r: usize)
    ensures
        r == (if n <= 2 {
            n as int
        } else {
            n - 1
        }),
{
    if n <= 2 {
        n
    } else {
        n - 1
    }
}

/// Content words gathered backwards: `words` and, while they are fewer than `n`,
/// those of the utterances before number `u`, around the end, at most three back.
pub open spec fn gathered(
    list: Seq<Seq<char>>,
    u: int,
    n: nat,
    back: int,
    words: Seq<Seq<char>>,
) -> Seq<Seq<char>>
    decreases 4 - back,
{
    if words.len() >= n || back >= 4 || back >= list.len() {
        words
    } else {
        let at = if u >= back {
            u - back
        } else {
            u + list.len() - back
        };
        gathered(list, u, n, back + 1, contentful(token_list(list[at])) + words)
    }
}

/// The last `n` words of a list.
pub open spec fn last_words(words: Seq<Seq<char>>, n: nat) -> Seq<Seq<char>> {
    if words.len() > n {
        words.skip(words.len() - n)
    } else {
        words
    }
}

/// What is looked for of utterance `u`: the last `n` content words of the running
/// transcript, short utterances borrowing words from the ones before them; all
/// its words if there are no content words.
pub open spec fn target_of(list: Seq<Seq<char>>, u: int, n: nat) -> Seq<Seq<char>> {
    let content = gathered(list, u, n, 1, contentful(token_list(list[u])));
    last_words(
        if content.len() == 0 {
            token_list(list[u])
        } else {
            content
        },
        n,
    )
}

/// The words to look for of utterance `u` of a transcript.
pub fn target_words(list: &[String], u: usize, n: usize) -> (r: Vec<String>)
    requires
        u < list@.len(),
    ensures
        texts(r@) == target_of(texts(list@), u as int, n as nat),
{
    let ghost all = texts(list@);
    assert(all[u as int] == list@[u as int]@);
    let mut words = content_words(list[u].as_str());
    let ghost want = gathered(all, u as int, n as nat, 1, texts(words@));
    let mut back: usize = 1;
    while words.len() < n && back < 4 && back < list.len()
        invariant
            u < list@.len(),
            all == texts(list@),
            1 <= back <= 4,
            want == gathered(all, u as int, n as nat, back as int, texts(words@)),
        decreases 4 - back,
    {
        let at: usize = if u >= back { u - back } else { list.len() - (back - u) };
        assert(all[at as int] == list@[at as int]@);
        let mut more = content_words(list[at].as_str());
        let ghost front = texts(more@);
        let ghost rest = texts(words@);
        more.append(&mut words);
        assert(texts(more@) =~= front + rest);
        words = more;
        back = back + 1;
    }
    assert(want == texts(words@));
    if words.len() == 0 {
        words = tokens(list[u].as_str());
    }
    let ghost whole = texts(words@);
    if words.len() > n {
        let cut: usize = words.len() - n;
        let tail = words.split_off(cut);
        assert(texts(tail@) =~= whole.skip(cut as int));
        tail
    } else {
        words
    }
}

/// What each cue shows.
pub open spec fn cue_texts(cues: Seq<Vec<String>>) -> Seq<Seq<Seq<char>>> {
    cues.map_values(|c: Vec<String>| texts(c@))
}

/// The first cue in `[from, to)` that shows at least `need` target words.
pub open spec fn first_showing(
    target: Seq<Seq<char>>,
    cues: Seq<Seq<Seq<char>>>,
    from: int,
    to: int,
    need: nat,
) -> Option<int>
    decreases to - from,
{
    if from >= to {
        None
    } else if matched(target, cues[from]) >= need {
        Some(from)
    } else {
        first_showing(target, cues, from + 1, to, need)
    }
}

/// Where the target first appears among the cues `from..to`, and how many of its
/// words are shown there.
pub fn first_match(target: &[String], cues: &[Vec<String>], from: usize, to: usize) -> (r: Option<
    (usize, usize),
>)
    requires
        from <= to <= cues@.len(),
    ensures
        ({
            let n = target@.len();
            let at = first_showing(
                texts(target@),
                cue_texts(cues@),
                from as int,
                to as int,
                (if n <= 2 {
                    n
                } else {
                    (n - 1) as nat
                }),
            );
            &&& r is Some == at is Some
            &&& r matches Some(m) ==> m.0 == at->0 && m.1 == matched(
                texts(target@),
                cue_texts(cues@)[at->0],
            )
        }),
{
    let need: usize = required(target.len());
    let ghost all = cue_texts(cues@);
    let mut i: usize = from;
    while i < to
        invariant
            from <= i <= to <= cues@.len(),
            all == cue_texts(cues@),
            need == (if target@.len() <= 2 {
                target@.len() as int
            } else {
                target@.len() - 1
            }),
            first_showing(texts(target@), all, from as int, to as int, need as nat)
                == first_showing(texts(target@), all, i as int, to as int, need as nat),
        decreases to - i,
    {
        assert(all[i as int] == texts(cues@[i as int]@));
        let n: usize = match_count(target, cues[i].as_slice());
        if n >= need {
            return Some((i, n));
        }
        i = i + 1;
    }
    None
}

} // verus!
