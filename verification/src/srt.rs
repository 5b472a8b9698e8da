//! SubRip captions: cues with their times and text.
use vstd::prelude::*;

use crate::chars::{
    char_lists, copy_range, fields, from_chars, lines, spaced_words, split, split_whitespace, text_lines,
    to_chars, trim, trimmed,
};

verus! {

/// A text with every carriage return directly before a line feed taken out.
pub open spec fn unix_text(s: Seq<char>) -> Seq<char>
    decreases s.len(),
{
    if s.len() == 0 {
        seq![]
    } else if s[0] == '\r' && s.len() > 1 && s[1] == '\n' {
        unix_text(s.drop_first())
    } else {
        seq![s[0]] + unix_text(s.drop_first())
    }
}

/// The first empty line from `i` on: two line feeds in a row.
pub open spec fn next_gap(s: Seq<char>, i: int) -> Option<int>
    decreases s.len() - i,
{
    if i + 2 > s.len() {
        None
    } else if s[i] == '\n' && s[i + 1] == '\n' {
        Some(i)
    } else {
        next_gap(s, i + 1)
    }
}

/// The blocks of a text from `i` on: what stands between empty lines.
pub open spec fn blocks(s: Seq<char>, i: int) -> Seq<Seq<char>>
    decreases s.len() - i,
{
    match next_gap(s, i) {
        Some(g) => if g < i || g + 2 > s.len() {
            seq![]
        } else {
            seq![s.subrange(i, g)] + blocks(s, g + 2)
        },
        None => seq![s.subrange(i, s.len() as int)],
    }
}

/// An arrow `-->` stands at `i`.
pub open spec fn arrow_at(s: Seq<char>, i: int) -> bool {
    i + 3 <= s.len() && s[i] == '-' && s[i + 1] == '-' && s[i + 2] == '>'
}

/// The first arrow from `i` on.
pub open spec fn first_arrow(s: Seq<char>, i: int) -> Option<int>
    decreases s.len() - i,
{
    if i + 3 > s.len() {
        None
    } else if arrow_at(s, i) {
        Some(i)
    } else {
        first_arrow(s, i + 1)
    }
}

/// The first line from `i` on with an arrow in it.
pub open spec fn time_line(list: Seq<Seq<char>>, i: int) -> Option<int>
    decreases list.len() - i,
{
    if i >= list.len() {
        None
    } else if first_arrow(list[i], 0) is Some {
        Some(i)
    } else {
        time_line(list, i + 1)
    }
}

/// A text while markup is taken out of it: what is left, and whether an angle
/// bracket or a brace is open.
pub struct Stripped {
    pub text: Seq<char>,
    pub angle: bool,
    pub brace: bool,
}

/// A text without `<...>` and `{...}`.
pub open spec fn stripped(s: Seq<char>) -> Stripped
    decreases s.len(),
{
    if s.len() == 0 {
        Stripped { text: seq![], angle: false, brace: false }
    } else {
        let head = stripped(s.drop_last());
        let c = s.last();
        if c == '<' {
            Stripped { angle: true, ..head }
        } else if c == '>' && head.angle {
            Stripped { angle: false, ..head }
        } else if c == '{' {
            Stripped { brace: true, ..head }
        } else if c == '}' && head.brace {
            Stripped { brace: false, ..head }
        } else if head.angle || head.brace {
            head
        } else {
            Stripped { text: head.text.push(c), ..head }
        }
    }
}

/// Lines without markup, joined by spaces.
pub open spec fn joined_text(list: Seq<Seq<char>>) -> Seq<char>
    decreases list.len(),
{
    if list.len() == 0 {
        seq![]
    } else if list.len() == 1 {
        stripped(list[0]).text
    } else {
        joined_text(list.drop_last()).push(' ') + stripped(list.last()).text
    }
}

/// A cue with its times as they are written.
pub struct CueText {
    pub start: Seq<char>,
    pub end: Seq<char>,
    pub text: Seq<char>,
}

/// The cue of a block: the times around the arrow (of the second its first word)
/// and the lines that follow.
pub open spec fn block_cue(list: Seq<Seq<char>>) -> Option<CueText> {
    match time_line(list, 0) {
        Some(i) => {
            let at = first_arrow(list[i], 0)->0;
            let rest = spaced_words(list[i].skip(at + 3));
            Some(
                CueText {
                    start: list[i].take(at),
                    end: if rest.len() > 0 {
                        rest[0]
                    } else {
                        seq![]
                    },
                    text: joined_text(list.skip(i + 1)),
                },
            )
        },
        None => None,
    }
}

/// The cues of a list of blocks.
pub open spec fn block_cues(list: Seq<Seq<char>>) -> Seq<CueText>
    decreases list.len(),
{
    if list.len() == 0 {
        seq![]
    } else {
        let head = block_cues(list.drop_last());
        match block_cue(text_lines(list.last())) {
            Some(cue) => head.push(cue),
            None => head,
        }
    }
}

/// The cues of a text, in the order in which they stand.
pub open spec fn srt_cues(s: Seq<char>) -> Seq<CueText> {
    block_cues(blocks(unix_text(s), 0))
}

/// A cue as it stands in the file, its times not yet read.
pub struct RawCue {
    pub start: String,
    pub end: String,
    pub text: String,
}

impl View for RawCue {
    type V = CueText;

    open spec fn view(&self) -> CueText {
        CueText { start: self.start@, end: self.end@, text: self.text@ }
    }
}

/// What a list of cues holds.
pub open spec fn cue_views(list: Seq<RawCue>) -> Seq<CueText> {
    list.map_values(|c: RawCue| c@)
}

fn to_unix(s: &[char]) -> (r: Vec<char>)
    ensures
        r@ == unix_text(s@),
{
    let mut out: Vec<char> = Vec::new();
    let ghost all = unix_text(s@);
    assert(s@.skip(0) =~= s@);
    assert(out@ + unix_text(s@) =~= unix_text(s@));
    for i in 0..s.len()
        invariant
            all == out@ + unix_text(s@.skip(i as int)),
    {
        let ghost rest = s@.skip(i as int);
        assert(rest.drop_first() =~= s@.skip(i + 1));
        if s[i] == '\r' && i + 1 < s.len() && s[i + 1] == '\n' {
        } else {
            let ghost before = out@;
            out.push(s[i]);
            let ghost tail = unix_text(s@.skip(i + 1));
            assert(before + (seq![s@[i as int]] + tail) =~= out@ + tail);
        }
    }
    assert(s@.skip(s@.len() as int).len() == 0);
    assert(out@ + Seq::<char>::empty() =~= out@);
    out
}

fn split_blocks(s: &[char]) -> (r: Vec<Vec<char>>)
    ensures
        char_lists(r@) == blocks(s@, 0),
{
    let mut out: Vec<Vec<char>> = Vec::new();
    let ghost all = blocks(s@, 0);
    let mut start: usize = 0;
    let mut i: usize = 0;
    assert(char_lists(out@) + all =~= all);
    while i < s.len() && s.len() - i >= 2
        invariant
            start <= i <= s@.len(),
            next_gap(s@, start as int) == next_gap(s@, i as int),
            all == char_lists(out@) + blocks(s@, start as int),
        decreases s@.len() - i,
    {
        if s[i] == '\n' && s[i + 1] == '\n' {
            let block = copy_range(s, start, i);
            let ghost before = char_lists(out@);
            let ghost rest = blocks(s@, i + 2);
            out.push(block);
            assert(char_lists(out@) =~= before.push(block@));
            assert(before + (seq![block@] + rest) =~= before.push(block@) + rest);
            i = i + 2;
            start = i;
        } else {
            i = i + 1;
        }
    }
    let block = copy_range(s, start, s.len());
    let ghost before = char_lists(out@);
    out.push(block);
    assert(char_lists(out@) =~= before.push(block@));
    assert(before + seq![block@] =~= before.push(block@));
    out
}

fn find_arrow(s: &[char]) -> (r: Option<usize>)
    ensures
        r is Some == first_arrow(s@, 0) is Some,
        r matches Some(i) ==> i == first_arrow(s@, 0)->0 && i + 3 <= s@.len(),
{
    let mut i: usize = 0;
    while i < s.len() && s.len() - i >= 3
        invariant
            i <= s@.len(),
            first_arrow(s@, 0) == first_arrow(s@, i as int),
        decreases s@.len() - i,
    {
        if s[i] == '-' && s[i + 1] == '-' && s[i + 2] == '>' {
            return Some(i);
        }
        i = i + 1;
    }
    None
}

/// Takes `<...>` and `{...}` out of a text.
fn strip_tags(s: &[char]) -> (r: Vec<char>)
    ensures
        r@ == stripped(s@).text,
{
    let mut out: Vec<char> = Vec::new();
    let mut angle = false;
    let mut brace = false;
    for i in 0..s.len()
        invariant
            out@ == stripped(s@.take(i as int)).text,
            angle == stripped(s@.take(i as int)).angle,
            brace == stripped(s@.take(i as int)).brace,
    {
        let c = s[i];
        assert(s@.take(i + 1).drop_last() =~= s@.take(i as int));
        if c == '<' {
            angle = true;
        } else if c == '>' && angle {
            angle = false;
        } else if c == '{' {
            brace = true;
        } else if c == '}' && brace {
            brace = false;
        } else if angle || brace {
        } else {
            out.push(c);
        }
    }
    assert(s@.take(s@.len() as int) =~= s@);
    out
}

fn parse_block(list: &Vec<Vec<char>>) -> (r: Option<RawCue>)
    ensures
        r is Some == block_cue(char_lists(list@)) is Some,
        r matches Some(cue) ==> cue@ == block_cue(char_lists(list@))->0,
{
    let ghost all = char_lists(list@);
    let mut i: usize = 0;
    while i < list.len()
        invariant
            i <= list@.len(),
            all == char_lists(list@),
            time_line(all, 0) == time_line(all, i as int),
        decreases list@.len() - i,
    {
        assert(all[i as int] == list@[i as int]@);
        if let Some(at) = find_arrow(list[i].as_slice()) {
            let line = &list[i];
            let start = copy_range(line.as_slice(), 0, at);
            assert(start@ =~= line@.take(at as int));
            assert(at + 3 <= line.len());
            let after = copy_range(line.as_slice(), at + 3, line.len());
            assert(after@ =~= line@.skip(at + 3));
            let words = split_whitespace(after.as_slice());
            let ghost rest = spaced_words(after@);
            assert(words.len() > 0 ==> rest[0] == words@[0]@);
            let end = if words.len() > 0 {
                from_chars(words[0].as_slice())
            } else {
                String::new()
            };
            let ghost body = all.skip(i + 1);
            let mut text: Vec<char> = Vec::new();
            assert(body.take(0) =~= seq![]);
            let mut k: usize = i + 1;
            while k < list.len()
                invariant
                    i < k <= list@.len(),
                    all == char_lists(list@),
                    body == all.skip(i + 1),
                    text@ == joined_text(body.take(k - i - 1)),
                decreases list@.len() - k,
            {
                let ghost upto = body.take(k - i);
                assert(upto.drop_last() =~= body.take(k - i - 1));
                assert(upto.last() == list@[k as int]@);
                let ghost sofar = text@;
                if k > i + 1 {
                    text.push(' ');
                } else {
                    assert(sofar =~= seq![]);
                }
                let mut plain = strip_tags(list[k].as_slice());
                let ghost shown = plain@;
                text.append(&mut plain);
                proof {
                    if k == i + 1 {
                        assert(upto[0] == list@[k as int]@);
                        assert(text@ =~= shown);
                    }
                }
                k = k + 1;
            }
            assert(body.take(k - i - 1) =~= body);
            return Some(
                RawCue {
                    start: from_chars(start.as_slice()),
                    end,
                    text: from_chars(text.as_slice()),
                },
            );
        }
        i = i + 1;
    }
    None
}

/// The cues of a SubRip text, with their times as written.
pub fn raw_cues(text: &str) -> (r: Vec<RawCue>)
    ensures
        cue_views(r@) == srt_cues(text@),
{
    let plain = to_unix(to_chars(text).as_slice());
    let parts = split_blocks(plain.as_slice());
    let ghost list = char_lists(parts@);
    let mut out: Vec<RawCue> = Vec::new();
    assert(cue_views(out@) =~= block_cues(list.take(0)));
    for i in 0..parts.len()
        invariant
            list == char_lists(parts@),
            cue_views(out@) == block_cues(list.take(i as int)),
    {
        assert(list.take(i + 1).drop_last() =~= list.take(i as int));
        assert(list.take(i + 1).last() == parts@[i as int]@);
        let ghost before = cue_views(out@);
        if let Some(cue) = parse_block(&lines(parts[i].as_slice())) {
            out.push(cue);
            assert(cue_views(out@) =~= before.push(cue@));
        }
    }
    assert(list.take(list.len() as int) =~= list);
    out
}

/// The parts of a time `HH:MM:SS,mmm` (a dot may stand for the comma).
pub struct TimeParts {
    pub hours: String,
    pub minutes: String,
    pub seconds: String,
    pub fraction: String,
}

/// The first comma or dot from `i` on.
pub open spec fn first_mark(s: Seq<char>, i: int) -> Option<int>
    decreases s.len() - i,
{
    if i >= s.len() {
        None
    } else if s[i] == ',' || s[i] == '.' {
        Some(i)
    } else {
        first_mark(s, i + 1)
    }
}

/// Splits a time into its parts; `None` if it has no fraction or fewer than
/// three fields before it.
pub fn time_parts(text: &str) -> (r: Option<TimeParts>)
    ensures
        ({
            let s = trimmed(text@);
            match first_mark(s, 0) {
                Some(at) => {
                    let f = fields(s.take(at), ':');
                    &&& r is Some <==> f.len() >= 3
                    &&& r matches Some(p) ==> {
                        &&& p.hours@ == trimmed(f[0])
                        &&& p.minutes@ == f[1]
                        &&& p.seconds@ == f[2]
                        &&& p.fraction@ == s.skip(at + 1)
                    }
                },
                None => r is None,
            }
        }),
{
    let s = trim(to_chars(text).as_slice());
    let mut i: usize = 0;
    while i < s.len() && s[i] != ',' && s[i] != '.'
        invariant
            i <= s@.len(),
            first_mark(s@, 0) == first_mark(s@, i as int),
        decreases s@.len() - i,
    {
        i = i + 1;
    }
    if i == s.len() {
        return None;
    }
    let head = copy_range(s.as_slice(), 0, i);
    assert(head@ =~= s@.take(i as int));
    let tail = copy_range(s.as_slice(), i + 1, s.len());
    assert(tail@ =~= s@.skip(i + 1));
    let f = split(head.as_slice(), ':');
    let ghost list = char_lists(f@);
    if f.len() < 3 {
        return None;
    }
    assert(list[0] == f@[0]@ && list[1] == f@[1]@ && list[2] == f@[2]@);
    let hours = trim(f[0].as_slice());
    Some(
        TimeParts {
            hours: from_chars(hours.as_slice()),
            minutes: from_chars(f[1].as_slice()),
            seconds: from_chars(f[2].as_slice()),
            fraction: from_chars(tail.as_slice()),
        },
    )
}

} // verus!
