//! Reference transcripts: tab-separated segments and words.
use vstd::prelude::*;

use crate::chars::{
    char_lists, fields, from_chars, lines, split, text_lines, to_chars, trim, trimmed,
};

verus! {

/// A segment or word with its times as they are written.
pub struct TimedText {
    pub start: Seq<char>,
    pub end: Seq<char>,
    pub text: Seq<char>,
}

/// The segment of a line: start and end before the first two tabs, the rest its
/// text.
pub open spec fn segment_of(line: Seq<char>) -> Option<TimedText> {
    let f = fields(line, '\t');
    if f.len() < 2 {
        None
    } else {
        Some(
            TimedText {
                start: trimmed(f[0]),
                end: trimmed(f[1]),
                text: if f.len() < 3 {
                    seq![]
                } else {
                    line.skip(2int + f[0].len() + f[1].len())
                },
            },
        )
    }
}

/// The word of a line: its text, start and end in the first three fields.
pub open spec fn word_of(line: Seq<char>) -> Option<TimedText> {
    let f = fields(line, '\t');
    if f.len() < 3 {
        None
    } else {
        Some(TimedText { start: trimmed(f[1]), end: trimmed(f[2]), text: f[0] })
    }
}

/// What the lines of a text stand for, lines that stand for nothing left out.
pub open spec fn timed(
    list: Seq<Seq<char>>,
    read: spec_fn(Seq<char>) -> Option<TimedText>,
) -> Seq<TimedText>
    decreases list.len(),
{
    if list.len() == 0 {
        seq![]
    } else {
        let head = timed(list.drop_last(), read);
        match read(list.last()) {
            Some(t) => head.push(t),
            None => head,
        }
    }
}

/// A segment or word, its times not yet read.
pub struct RawTimed {
    pub start: String,
    pub end: String,
    pub text: String,
}

impl View for RawTimed {
    type V = TimedText;

    open spec fn view(&self) -> TimedText {
        TimedText { start: self.start@, end: self.end@, text: self.text@ }
    }
}

/// What a list of segments or words holds.
pub open spec fn timed_views(list: Seq<RawTimed>) -> Seq<TimedText> {
    list.map_values(|t: RawTimed| t@)
}

/// The first two fields fit into the line with their tabs.
proof fn lemma_two_fields_fit(s: Seq<char>, sep: char)
    ensures
        fields(s, sep).len() > 0,
        fields(s, sep).len() == 1 ==> fields(s, sep)[0].len() == s.len(),
        fields(s, sep).len() == 2 ==> fields(s, sep)[0].len() + fields(s, sep)[1].len() + 1
            == s.len(),
        fields(s, sep).len() >= 3 ==> fields(s, sep)[0].len() + fields(s, sep)[1].len() + 2
            <= s.len(),
    decreases s.len(),
{
    if s.len() > 0 {
        lemma_two_fields_fit(s.drop_last(), sep);
    }
}

fn parse_segment(line: &Vec<char>) -> (r: Option<RawTimed>)
    ensures
        r is Some == segment_of(line@) is Some,
        r matches Some(t) ==> t@ == segment_of(line@)->0,
{
    let f = split(line.as_slice(), '\t');
    let ghost all = char_lists(f@);
    if f.len() < 2 {
        return None;
    }
    assert(all[0] == f@[0]@ && all[1] == f@[1]@);
    let start = trim(f[0].as_slice());
    let end = trim(f[1].as_slice());
    let mut text: Vec<char> = Vec::new();
    if f.len() >= 3 {
        proof {
            lemma_two_fields_fit(line@, '\t');
            assert(line@.len() == line.len());
        }
        let from: usize = f[0].len() + f[1].len() + 2;
        let mut k: usize = from;
        assert(line@.subrange(from as int, from as int) =~= seq![]);
        while k < line.len()
            invariant
                from <= k <= line@.len(),
                text@ == line@.subrange(from as int, k as int),
            decreases line@.len() - k,
        {
            text.push(line[k]);
            k = k + 1;
            assert(text@ =~= line@.subrange(from as int, k as int));
        }
        assert(text@ =~= line@.skip(from as int));
    }
    Some(
        RawTimed {
            start: from_chars(start.as_slice()),
            end: from_chars(end.as_slice()),
            text: from_chars(text.as_slice()),
        },
    )
}

fn parse_word(line: &Vec<char>) -> (r: Option<RawTimed>)
    ensures
        r is Some == word_of(line@) is Some,
        r matches Some(t) ==> t@ == word_of(line@)->0,
{
    let f = split(line.as_slice(), '\t');
    let ghost all = char_lists(f@);
    if f.len() < 3 {
        return None;
    }
    assert(all[0] == f@[0]@ && all[1] == f@[1]@ && all[2] == f@[2]@);
    let start = trim(f[1].as_slice());
    let end = trim(f[2].as_slice());
    Some(
        RawTimed {
            start: from_chars(start.as_slice()),
            end: from_chars(end.as_slice()),
            text: from_chars(f[0].as_slice()),
        },
    )
}

/// The segments of a transcript, `start<TAB>end<TAB>text` a line.
pub fn raw_segments(text: &str) -> (r: Vec<RawTimed>)
    ensures
        timed_views(r@) == timed(text_lines(text@), |l: Seq<char>| segment_of(l)),
{
    let all = lines(to_chars(text).as_slice());
    let ghost list = char_lists(all@);
    let ghost read = |l: Seq<char>| segment_of(l);
    let mut out: Vec<RawTimed> = Vec::new();
    assert(timed_views(out@) =~= timed(list.take(0), read));
    for i in 0..all.len()
        invariant
            list == char_lists(all@),
            read == (|l: Seq<char>| segment_of(l)),
            timed_views(out@) == timed(list.take(i as int), read),
    {
        assert(list.take(i + 1).drop_last() =~= list.take(i as int));
        assert(list.take(i + 1).last() == all@[i as int]@);
        let ghost before = timed_views(out@);
        if let Some(t) = parse_segment(&all[i]) {
            out.push(t);
            assert(timed_views(out@) =~= before.push(t@));
        }
    }
    assert(list.take(list.len() as int) =~= list);
    out
}

/// The words of a transcript, `word<TAB>start<TAB>end` a line.
pub fn raw_words(text: &str) -> (r: Vec<RawTimed>)
    ensures
        timed_views(r@) == timed(text_lines(text@), |l: Seq<char>| word_of(l)),
{
    let all = lines(to_chars(text).as_slice());
    let ghost list = char_lists(all@);
    let ghost read = |l: Seq<char>| word_of(l);
    let mut out: Vec<RawTimed> = Vec::new();
    assert(timed_views(out@) =~= timed(list.take(0), read));
    for i in 0..all.len()
        invariant
            list == char_lists(all@),
            read == (|l: Seq<char>| word_of(l)),
            timed_views(out@) == timed(list.take(i as int), read),
    {
        assert(list.take(i + 1).drop_last() =~= list.take(i as int));
        assert(list.take(i + 1).last() == all@[i as int]@);
        let ghost before = timed_views(out@);
        if let Some(t) = parse_word(&all[i]) {
            out.push(t);
            assert(timed_views(out@) =~= before.push(t@));
        }
    }
    assert(list.take(list.len() as int) =~= list);
    out
}

} // verus!
