//! What measurements rest on: frames matched between two logs, words matched
//! between a transcript and captions, and caption files taken apart.
use vstd::prelude::*;

use crate::matching::{best_found, distance, first_showing, found_at, found_before};
use crate::matching::{last_similar, last_words, law_distance_is_bounded};
use crate::matching::{law_similar_is_symmetric_and_reflexive, matched, similar, target_of};
use crate::report::{by_content, diff33, hash_pairs, hash_partner, law_pick, paired, picked, pts_is};
use crate::report::{pts_pairs, pts_partner, selected, MatchMode, Row};
use crate::srt::{block_cue, blocks, first_arrow, next_gap, stripped, time_line, unix_text};
use crate::srt::{joined_text, CueText};
use crate::chars::spaced_words;

verus! {

/// The difference of two 33-bit timestamps is the nearest one: it differs from
/// the plain difference by whole wraps and is less than half a wrap.
pub proof fn law_differences_wrap(a: i64, b: i64)
    ensures
        -0x1_0000_0000 <= diff33(a, b) < 0x1_0000_0000,
        (diff33(a, b) - (a - b)) % 0x2_0000_0000 == 0,
        -0x1_0000_0000 <= a - b < 0x1_0000_0000 ==> diff33(a, b) == a - b,
{
}

proof fn lemma_selected(rows: Seq<Row>, n: nat, key: spec_fn(Row) -> bool)
    requires
        n <= rows.len(),
    ensures
        forall|k: int|
            0 <= k < selected(rows, n, key).len() ==> {
                let i = #[trigger] selected(rows, n, key)[k];
                0 <= i < n && key(rows[i])
            },
        forall|i: int|
            0 <= i < n && key(#[trigger] rows[i]) ==> selected(rows, n, key).contains(i),
    decreases n,
{
    if n > 0 {
        lemma_selected(rows, (n - 1) as nat, key);
        let head = selected(rows, (n - 1) as nat, key);
        let all = selected(rows, n, key);
        assert forall|i: int| 0 <= i < n && key(#[trigger] rows[i]) implies all.contains(i) by {
            if i < n - 1 {
                let k = choose|k: int| 0 <= k < head.len() && head[k] == i;
                assert(all[k] == i);
            } else {
                assert(all[all.len() - 1] == i);
            }
        }
    }
}

/// A frame that was sent on is matched by its content to a frame with the same
/// content, whenever there is one: the last that came no later, or else the first.
/// A frame without content is matched to none.
pub proof fn law_content_finds_its_frame(inp: Seq<Row>, row: Row)
    ensures
        hash_partner(inp, row) is Some <==> row.hash != 0 && exists|i: int|
            0 <= i < inp.len() && (#[trigger] inp[i]).hash == row.hash,
        hash_partner(inp, row) matches Some(p) ==> {
            &&& 0 <= p < inp.len() && inp[p].hash == row.hash
            &&& forall|i: int|
                0 <= i < inp.len() && (#[trigger] inp[i]).hash == row.hash ==> {
                    &&& inp[p].wall <= row.wall && inp[i].wall <= row.wall ==> inp[i].wall
                        <= inp[p].wall
                    &&& inp[p].wall > row.wall ==> inp[i].wall >= inp[p].wall
                }
        },
{
    let key = |r: Row| r.hash == row.hash;
    let cands = selected(inp, inp.len(), key);
    lemma_selected(inp, inp.len(), key);
    law_pick(cands, inp, row.wall);
    if row.hash != 0 {
        assert(hash_partner(inp, row) == picked(cands, inp, row.wall));
        assert forall|i: int|
            0 <= i < inp.len() && (#[trigger] inp[i]).hash == row.hash implies cands.contains(
            i,
        ) by {
            assert(key(inp[i]));
        }
        if cands.len() > 0 {
            let i = cands[0];
            assert(key(inp[i]));
        }
        if let Some(p) = hash_partner(inp, row) {
            let k = choose|k: int| 0 <= k < cands.len() && #[trigger] cands[k] == p;
            assert(key(inp[cands[k]]));
        }
    }
}

/// With a known offset a frame is matched by its timestamp to a frame that had
/// that timestamp without the offset, up to whole wraps, whenever there is one.
pub proof fn law_timestamps_find_their_frame(inp: Seq<Row>, row: Row, offset: i64)
    ensures
        pts_partner(inp, row, offset) is Some <==> row.pts is Some && exists|i: int|
            0 <= i < inp.len() && (#[trigger] inp[i]).pts is Some && (inp[i].pts->0 as int)
                % 0x2_0000_0000 == (row.pts->0 - offset) % 0x2_0000_0000,
        pts_partner(inp, row, offset) matches Some(p) ==> {
            &&& 0 <= p < inp.len() && inp[p].pts is Some
            &&& (inp[p].pts->0 as int) % 0x2_0000_0000 == (row.pts->0 - offset) % 0x2_0000_0000
        },
{
    if let Some(t) = row.pts {
        let want = (t - offset) % 0x2_0000_0000;
        let key = |r: Row| pts_is(r, want);
        let cands = selected(inp, inp.len(), key);
        lemma_selected(inp, inp.len(), key);
        law_pick(cands, inp, row.wall);
        assert(pts_partner(inp, row, offset) == picked(cands, inp, row.wall));
        assert forall|i: int|
            0 <= i < inp.len() && pts_is(#[trigger] inp[i], want) implies cands.contains(i) by {
            assert(key(inp[i]));
        }
        if cands.len() > 0 {
            let i = cands[0];
            assert(key(inp[i]));
        }
        if let Some(p) = pts_partner(inp, row, offset) {
            let k = choose|k: int| 0 <= k < cands.len() && #[trigger] cands[k] == p;
            assert(key(inp[cands[k]]));
        }
    }
}

proof fn lemma_paired(out: Seq<Row>, n: nat, partner: spec_fn(Row) -> Option<int>)
    requires
        n <= out.len(),
    ensures
        forall|j: int|
            0 <= j < n && partner(#[trigger] out[j]) is Some ==> paired(out, n, partner).contains(
                (partner(out[j])->0, j),
            ),
        forall|k: int|
            0 <= k < paired(out, n, partner).len() ==> {
                let p = #[trigger] paired(out, n, partner)[k];
                0 <= p.1 < n && partner(out[p.1]) == Some(p.0)
            },
    decreases n,
{
    if n > 0 {
        lemma_paired(out, (n - 1) as nat, partner);
        let head = paired(out, (n - 1) as nat, partner);
        let all = paired(out, n, partner);
        assert forall|j: int|
            0 <= j < n && partner(#[trigger] out[j]) is Some implies all.contains(
            (partner(out[j])->0, j),
        ) by {
            if j < n - 1 {
                let k = choose|k: int|
                    0 <= k < head.len() && head[k] == (partner(out[j])->0, j);
                assert(all[k] == (partner(out[j])->0, j));
            } else {
                assert(all[all.len() - 1] == (partner(out[j])->0, j));
            }
        }
    }
}

/// The pairs are the frames that were sent on, each with its match, and none is
/// left out.
pub proof fn law_every_match_is_paired(inp: Seq<Row>, out: Seq<Row>, offset: i64, j: int)
    requires
        0 <= j < out.len(),
    ensures
        hash_partner(inp, out[j]) matches Some(i) ==> hash_pairs(inp, out).contains((i, j)),
        pts_partner(inp, out[j], offset) matches Some(i) ==> pts_pairs(
            inp,
            out,
            offset,
        ).contains((i, j)),
        forall|k: int|
            0 <= k < hash_pairs(inp, out).len() ==> {
                let p = #[trigger] hash_pairs(inp, out)[k];
                hash_partner(inp, out[p.1]) == Some(p.0)
            },
        forall|k: int|
            0 <= k < pts_pairs(inp, out, offset).len() ==> {
                let p = #[trigger] pts_pairs(inp, out, offset)[k];
                pts_partner(inp, out[p.1], offset) == Some(p.0)
            },
{
    let by_hash = |row: Row| hash_partner(inp, row);
    let by_pts = |row: Row| pts_partner(inp, row, offset);
    lemma_paired(out, out.len(), by_hash);
    lemma_paired(out, out.len(), by_pts);
    assert(hash_pairs(inp, out) == paired(out, out.len(), by_hash));
    assert(pts_pairs(inp, out, offset) == paired(out, out.len(), by_pts));
    assert(by_hash(out[j]) == hash_partner(inp, out[j]));
    assert(by_pts(out[j]) == pts_partner(inp, out[j], offset));
}

/// One more character at the end of a word changes a distance by one at most.
pub proof fn law_letters_count_one(a: Seq<char>, b: Seq<char>, c: char)
    ensures
        distance(a.push(c), b) <= distance(a, b) + 1,
        distance(a, b) <= distance(a.push(c), b) + 1,
        distance(a.push(c), b.push(c)) <= distance(a, b),
    decreases b.len(),
{
    let x = a.push(c);
    assert(x.drop_last() =~= a);
    law_distance_is_bounded(a, b);
    law_distance_is_bounded(x, b);
    let y = b.push(c);
    assert(y.drop_last() =~= b);
    if b.len() > 0 {
        let less = b.drop_last();
        law_letters_count_one(a, less, c);
        lemma_shorter(a, b);
        assert(distance(a, b) <= distance(a, less) + 1);
        assert(distance(a, less) <= distance(x, less) + 1);
    }
}

proof fn lemma_shorter(a: Seq<char>, b: Seq<char>)
    requires
        b.len() > 0,
    ensures
        distance(a, b) <= distance(a, b.drop_last()) + 1,
        distance(a, b.drop_last()) <= distance(a, b) + 1,
    decreases a.len(),
{
    let less = b.drop_last();
    law_distance_is_bounded(a, less);
    law_distance_is_bounded(a, b);
    if a.len() > 0 {
        lemma_shorter(a.drop_last(), b);
        if less.len() == 0 {
            assert(distance(a, less) == a.len());
        }
    }
}

/// One exchanged, missing or additional letter makes words differ by one at most.
pub proof fn law_one_change_is_one_apart(head: Seq<char>, tail: Seq<char>, x: char, y: char)
    ensures
        distance(head.push(x) + tail, head.push(y) + tail) <= 1,
        distance(head.push(x) + tail, head + tail) <= 1,
        distance(head + tail, head.push(x) + tail) <= 1,
    decreases tail.len(),
{
    if tail.len() == 0 {
        assert(head.push(x) + tail =~= head.push(x));
        assert(head.push(y) + tail =~= head.push(y));
        assert(head + tail =~= head);
        assert(head.push(x).drop_last() =~= head);
        assert(head.push(y).drop_last() =~= head);
        crate::matching::law_distance_zero_means_equal(head, head);
        law_letters_count_one(head, head, x);
        lemma_shorter(head, head.push(x));
        assert(distance(head.push(x), head.push(y)) <= distance(head, head) + 1);
    } else {
        let less = tail.drop_last();
        let c = tail.last();
        law_one_change_is_one_apart(head, less, x, y);
        assert(head.push(x) + tail =~= (head.push(x) + less).push(c));
        assert(head.push(y) + tail =~= (head.push(y) + less).push(c));
        assert(head + tail =~= (head + less).push(c));
        law_letters_count_one(head.push(x) + less, head.push(y) + less, c);
        law_letters_count_one(head.push(x) + less, head + less, c);
        law_letters_count_one(head + less, head.push(x) + less, c);
    }
}

/// Words of two letters must be equal to count as the same, words of up to seven
/// may be one change apart, and longer ones two.
pub proof fn law_longer_words_may_differ_more(a: Seq<char>, b: Seq<char>)
    requires
        a.len() <= b.len(),
    ensures
        b.len() <= 2 ==> (similar(a, b) <==> a == b),
        3 <= b.len() <= 7 ==> (similar(a, b) <==> distance(a, b) <= 1),
        b.len() >= 8 ==> (similar(a, b) <==> distance(a, b) <= 2),
{
    crate::matching::law_distance_zero_means_equal(a, b);
    law_distance_is_bounded(a, b);
}

proof fn lemma_last_similar(cue: Seq<Seq<char>>, word: Seq<char>, lo: int, hi: int)
    requires
        0 <= lo,
    ensures
        last_similar(cue, word, lo, hi) matches Some(p) ==> lo <= p < hi && similar(cue[p], word),
    decreases hi - lo,
{
    if hi > lo && !similar(cue[hi - 1], word) {
        lemma_last_similar(cue, word, lo, hi - 1);
    }
}

proof fn lemma_found_bounded(
    target: Seq<Seq<char>>,
    cue: Seq<Seq<char>>,
    n: nat,
    lo: int,
    pos: int,
)
    requires
        0 <= lo,
        n <= target.len(),
    ensures
        found_before(target, cue, n, lo, pos) <= n,
    decreases n,
{
    if n > 0 {
        match last_similar(cue, target[n - 1], lo, pos) {
            Some(p) => lemma_found_bounded(target, cue, (n - 1) as nat, lo, p),
            None => lemma_found_bounded(target, cue, (n - 1) as nat, lo, pos),
        }
    }
}

proof fn lemma_found_in_a_row(
    target: Seq<Seq<char>>,
    cue: Seq<Seq<char>>,
    at: int,
    n: nat,
    lo: int,
)
    requires
        0 <= at,
        0 <= lo <= at,
        n <= target.len(),
        at + n <= cue.len(),
        forall|k: int| 0 <= k < n ==> cue[at + k] == #[trigger] target[k],
    ensures
        found_before(target, cue, n, lo, at + n) == n,
    decreases n,
{
    if n > 0 {
        let m = (n - 1) as nat;
        assert(cue[at + m] == target[n - 1]);
        law_similar_is_symmetric_and_reflexive(target[n - 1], target[n - 1]);
        assert(last_similar(cue, target[n - 1], lo, at + n) == Some(at + m));
        lemma_found_in_a_row(target, cue, at, m, lo);
    }
}

proof fn lemma_best(target: Seq<Seq<char>>, cue: Seq<Seq<char>>, n: nat, e: int)
    requires
        target.len() > 0,
        0 <= e < n <= cue.len(),
    ensures
        found_at(target, cue, e) <= best_found(target, cue, n),
    decreases n,
{
    if e < n - 1 {
        lemma_best(target, cue, (n - 1) as nat, e);
    }
}

proof fn lemma_best_bounded(target: Seq<Seq<char>>, cue: Seq<Seq<char>>, n: nat)
    requires
        target.len() > 0,
        n <= cue.len(),
    ensures
        best_found(target, cue, n) <= target.len(),
        (forall|e: int| 0 <= e < n ==> !similar(#[trigger] cue[e], target.last())) ==> best_found(
            target,
            cue,
            n,
        ) == 0,
    decreases n,
{
    if n > 0 {
        lemma_best_bounded(target, cue, (n - 1) as nat);
        let e = n - 1;
        let lo = if e > target.len() {
            e - target.len() - 1
        } else {
            0
        };
        lemma_found_bounded(target, cue, (target.len() - 1) as nat, lo, e);
    }
}

/// Words that stand in a caption one behind the other are all found, and never
/// more are found than there are. Without a word like the last one nothing is.
pub proof fn law_shown_words_are_found(
    before: Seq<Seq<char>>,
    target: Seq<Seq<char>>,
    behind: Seq<Seq<char>>,
    cue: Seq<Seq<char>>,
)
    requires
        target.len() > 0,
    ensures
        matched(target, before + target + behind) == target.len(),
        matched(target, cue) <= target.len(),
        (forall|e: int| 0 <= e < cue.len() ==> !similar(#[trigger] cue[e], target.last()))
            ==> matched(target, cue) == 0,
{
    let all = before + target + behind;
    let at = before.len() as int;
    let e = at + target.len() - 1;
    assert forall|k: int| 0 <= k < target.len() implies all[at + k] == #[trigger] target[k] by {}
    assert(all[e] == target.last());
    law_similar_is_symmetric_and_reflexive(target.last(), target.last());
    let lo = if e > target.len() {
        e - target.len() - 1
    } else {
        0
    };
    lemma_found_in_a_row(target, all, at, (target.len() - 1) as nat, lo);
    assert(found_at(target, all, e) == target.len());
    lemma_best(target, all, all.len(), e);
    lemma_best_bounded(target, all, all.len());
    lemma_best_bounded(target, cue, cue.len());
}

/// The first caption that shows enough of the words is taken.
pub proof fn law_the_first_showing_counts(
    target: Seq<Seq<char>>,
    cues: Seq<Seq<Seq<char>>>,
    from: int,
    to: int,
    need: nat,
)
    ensures
        match first_showing(target, cues, from, to, need) {
            Some(i) => {
                &&& from <= i < to && matched(target, cues[i]) >= need
                &&& forall|k: int|
                    from <= k < i ==> matched(target, #[trigger] cues[k]) < need
            },
            None => forall|k: int| from <= k < to ==> matched(target, #[trigger] cues[k]) < need,
        },
    decreases to - from,
{
    if from < to && matched(target, cues[from]) < need {
        law_the_first_showing_counts(target, cues, from + 1, to, need);
    }
}

/// No more words are looked for than asked for, and they are the last ones.
pub proof fn law_targets_are_the_last_words(list: Seq<Seq<char>>, u: int, n: nat)
    ensures
        target_of(list, u, n).len() <= n,
        forall|words: Seq<Seq<char>>| #[trigger]
            last_words(words, n) == (if words.len() <= n {
                words
            } else {
                words.subrange(words.len() - n, words.len() as int)
            }),
{
    assert forall|words: Seq<Seq<char>>| #[trigger]
        last_words(words, n) == (if words.len() <= n {
            words
        } else {
            words.subrange(words.len() - n, words.len() as int)
        }) by {
        if words.len() > n {
            assert(words.skip(words.len() - n) =~= words.subrange(
                words.len() - n,
                words.len() as int,
            ));
        }
    }
}

/// No character that opens or closes a tag.
pub open spec fn plain(s: Seq<char>) -> bool {
    forall|i: int|
        0 <= i < s.len() ==> (#[trigger] s[i]) != '<' && s[i] != '>' && s[i] != '{' && s[i] != '}'
}

proof fn lemma_within_a_tag(a: Seq<char>, t: Seq<char>)
    requires
        plain(t),
        stripped(a).angle || stripped(a).brace,
    ensures
        stripped(a + t) == stripped(a),
    decreases t.len(),
{
    if t.len() == 0 {
        assert(a + t =~= a);
    } else {
        let less = t.drop_last();
        assert forall|i: int| 0 <= i < less.len() implies (#[trigger] less[i]) != '<' && less[i]
            != '>' && less[i] != '{' && less[i] != '}' by {
            assert(less[i] == t[i]);
        }
        lemma_within_a_tag(a, less);
        assert((a + t).drop_last() =~= a + less);
        let last = t[t.len() - 1];
        assert(last != '<' && last != '>' && last != '{' && last != '}');
    }
}

/// A tag in angle brackets or braces leaves no trace; text outside of tags is
/// kept as it is.
pub proof fn law_tags_leave_no_trace(a: Seq<char>, tag: Seq<char>, c: char)
    requires
        plain(tag),
        !stripped(a).angle,
        !stripped(a).brace,
    ensures
        stripped(a.push('<') + tag + seq!['>']) == stripped(a),
        stripped(a.push('{') + tag + seq!['}']) == stripped(a),
        c != '<' && c != '{' ==> stripped(a.push(c)).text == stripped(a).text.push(c)
            && !stripped(a.push(c)).angle && !stripped(a.push(c)).brace,
{
    assert(a.push('<').drop_last() =~= a);
    assert(a.push('{').drop_last() =~= a);
    assert(a.push(c).drop_last() =~= a);
    lemma_within_a_tag(a.push('<'), tag);
    lemma_within_a_tag(a.push('{'), tag);
    assert((a.push('<') + tag + seq!['>']).drop_last() =~= a.push('<') + tag);
    assert((a.push('{') + tag + seq!['}']).drop_last() =~= a.push('{') + tag);
}

/// Line ends of either kind read the same, and nothing else changes.
pub proof fn law_line_ends_are_alike(rest: Seq<char>, c: char)
    ensures
        unix_text(seq!['\r', '\n'] + rest) == seq!['\n'] + unix_text(rest),
        unix_text(seq!['\n'] + rest) == seq!['\n'] + unix_text(rest),
        c != '\r' ==> unix_text(seq![c] + rest) == seq![c] + unix_text(rest),
        unix_text(Seq::empty()) == Seq::<char>::empty(),
{
    let s = seq!['\r', '\n'] + rest;
    assert(s.drop_first() =~= seq!['\n'] + rest);
    assert((seq!['\n'] + rest).drop_first() =~= rest);
    assert((seq![c] + rest).drop_first() =~= rest);
    assert(s[0] == '\r' && s[1] == '\n');
    let t = seq!['\n'] + rest;
    assert(t[0] == '\n');
    assert(unix_text(t) == seq!['\n'] + unix_text(rest));
    assert(unix_text(s) == unix_text(s.drop_first()));
}

proof fn lemma_gap(a: Seq<char>, b: Seq<char>, i: int)
    requires
        0 <= i <= a.len(),
        a.len() > 0 ==> a.last() != '\n',
        forall|k: int|
            #![trigger a[k]]
            0 <= k && k + 1 < a.len() ==> !(a[k] == '\n' && a[k + 1] == '\n'),
    ensures
        next_gap(a + seq!['\n', '\n'] + b, i) == Some(a.len() as int),
    decreases a.len() - i,
{
    let s = a + seq!['\n', '\n'] + b;
    if i < a.len() {
        assert(s[i] == a[i]);
        if i + 1 < a.len() {
            assert(s[i + 1] == a[i + 1]);
        } else {
            assert(a[i] == a.last());
        }
        lemma_gap(a, b, i + 1);
    } else {
        assert(s[i] == '\n' && s[i + 1] == '\n');
    }
}

proof fn lemma_gap_shifts(s: Seq<char>, from: int, i: int)
    requires
        0 <= from <= i <= s.len(),
    ensures
        next_gap(s.skip(from), i - from) == (match next_gap(s, i) {
            Some(g) => Some(g - from),
            None => None,
        }),
        next_gap(s, i) matches Some(g) ==> i <= g && g + 2 <= s.len(),
    decreases s.len() - i,
{
    if i + 2 <= s.len() {
        assert(s.skip(from)[i - from] == s[i]);
        assert(s.skip(from)[i - from + 1] == s[i + 1]);
        if !(s[i] == '\n' && s[i + 1] == '\n') {
            lemma_gap_shifts(s, from, i + 1);
        }
    }
}

proof fn lemma_blocks_shift(s: Seq<char>, from: int, i: int)
    requires
        0 <= from <= i <= s.len(),
    ensures
        blocks(s, i) == blocks(s.skip(from), i - from),
    decreases s.len() - i,
{
    lemma_gap_shifts(s, from, i);
    let t = s.skip(from);
    match next_gap(s, i) {
        Some(g) => {
            lemma_blocks_shift(s, from, g + 2);
            assert(s.subrange(i, g) =~= t.subrange(i - from, g - from));
        },
        None => {
            assert(s.subrange(i, s.len() as int) =~= t.subrange(i - from, t.len() as int));
        },
    }
}

/// An empty line ends a block, and the next one starts behind it.
pub proof fn law_blocks_end_at_empty_lines(a: Seq<char>, b: Seq<char>)
    requires
        a.len() > 0 ==> a.last() != '\n',
        forall|k: int|
            #![trigger a[k]]
            0 <= k && k + 1 < a.len() ==> !(a[k] == '\n' && a[k + 1] == '\n'),
    ensures
        blocks(a + seq!['\n', '\n'] + b, 0) == seq![a] + blocks(b, 0),
{
    let s = a + seq!['\n', '\n'] + b;
    let n = a.len() as int;
    lemma_gap(a, b, 0);
    lemma_blocks_shift(s, n + 2, n + 2);
    assert(s.skip(n + 2) =~= b);
    assert(s.subrange(0, n) =~= a);
}

proof fn lemma_arrow(start: Seq<char>, rest: Seq<char>, i: int)
    requires
        0 <= i <= start.len(),
        forall|k: int| 0 <= k < start.len() ==> #[trigger] start[k] != '-',
    ensures
        first_arrow(start + seq!['-', '-', '>'] + rest, i) == Some(start.len() as int),
    decreases start.len() - i,
{
    let s = start + seq!['-', '-', '>'] + rest;
    if i < start.len() {
        assert(s[i] == start[i]);
        lemma_arrow(start, rest, i + 1);
    } else {
        assert(s[i] == '-' && s[i + 1] == '-' && s[i + 2] == '>');
    }
}

proof fn lemma_time_line(head: Seq<Seq<char>>, line: Seq<char>, texts: Seq<Seq<char>>, i: int)
    requires
        0 <= i <= head.len(),
        forall|k: int| 0 <= k < head.len() ==> first_arrow(#[trigger] head[k], 0) is None,
        first_arrow(line, 0) is Some,
    ensures
        time_line(head + seq![line] + texts, i) == Some(head.len() as int),
    decreases head.len() - i,
{
    let list = head + seq![line] + texts;
    if i < head.len() {
        assert(list[i] == head[i]);
        lemma_time_line(head, line, texts, i + 1);
    } else {
        assert(list[i] == line);
    }
}

/// A cue is read from its time line: the start before the arrow, the end behind
/// it, and the lines below as its text.
pub proof fn law_cues_are_read(
    head: Seq<Seq<char>>,
    start: Seq<char>,
    rest: Seq<char>,
    texts: Seq<Seq<char>>,
)
    requires
        forall|k: int| 0 <= k < head.len() ==> first_arrow(#[trigger] head[k], 0) is None,
        forall|k: int| 0 <= k < start.len() ==> #[trigger] start[k] != '-',
        spaced_words(rest).len() > 0,
    ensures
        block_cue(head + seq![start + seq!['-', '-', '>'] + rest] + texts) == Some(
            CueText { start, end: spaced_words(rest)[0], text: joined_text(texts) },
        ),
{
    let line = start + seq!['-', '-', '>'] + rest;
    let list = head + seq![line] + texts;
    lemma_arrow(start, rest, 0);
    lemma_time_line(head, line, texts, 0);
    let i = head.len() as int;
    assert(list[i] == line);
    assert(line.take(start.len() as int) =~= start);
    assert(line.skip(start.len() + 3int) =~= rest);
    assert(list.skip(i + 1) =~= texts);
}

/// Frames are matched by content where that is asked for, and by default where it
/// matches at least half of them.
pub proof fn law_half_the_frames_decide(inp: Seq<Row>, out: Seq<Row>)
    ensures
        by_content(inp, out, MatchMode::Hash),
        !by_content(inp, out, MatchMode::Pts),
        by_content(inp, out, MatchMode::Auto) <==> hash_pairs(inp, out).len() > 0 && hash_pairs(
            inp,
            out,
        ).len() >= out.len() - hash_pairs(inp, out).len(),
{
}

} // verus!
