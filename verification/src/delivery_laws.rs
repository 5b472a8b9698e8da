//! What becomes of text between the workers and the caption lanes.
use vstd::prelude::*;

use crate::captions::{first_index, Inbox, Piece};
use crate::chars::{trimmed, trimmed_end, trimmed_start, white_space};
use crate::config::{CaptionMode, Captions, Cc608, Language};
use crate::decimal::decimal;
use crate::lanes::{track_of, Track};
use crate::segment::Happening;
use crate::textpath::{bounded, row_of, with_row, Path, Request};

verus! {

/// White space only.
pub open spec fn blank(s: Seq<char>) -> bool {
    forall|i: int| 0 <= i < s.len() ==> white_space(#[trigger] s[i])
}

/// The text between two runs of white space, with none at its ends.
pub open spec fn core_of(s: Seq<char>, a: int, b: int) -> bool {
    &&& 0 <= a <= b <= s.len()
    &&& blank(s.take(a)) && blank(s.skip(b))
    &&& a < b ==> !white_space(s[a]) && !white_space(s[b - 1])
}

proof fn lemma_trimmed_start(s: Seq<char>) -> (a: int)
    ensures
        0 <= a <= s.len(),
        trimmed_start(s) == s.skip(a),
        blank(s.take(a)),
        a < s.len() ==> !white_space(s[a]),
    decreases s.len(),
{
    if s.len() > 0 && white_space(s[0]) {
        let n = lemma_trimmed_start(s.drop_first());
        let rest = s.drop_first();
        assert(rest.skip(n) =~= s.skip(n + 1));
        assert forall|i: int| 0 <= i < n + 1 implies white_space(#[trigger] s.take(n + 1)[i]) by {
            if i > 0 {
                assert(rest.take(n)[i - 1] == s[i]);
            }
        }
        n + 1
    } else {
        assert(s.skip(0) =~= s);
        0
    }
}

proof fn lemma_trimmed_end(s: Seq<char>) -> (b: int)
    ensures
        0 <= b <= s.len(),
        trimmed_end(s) == s.take(b),
        blank(s.skip(b)),
        b > 0 ==> !white_space(s[b - 1]),
    decreases s.len(),
{
    if s.len() > 0 && white_space(s.last()) {
        let rest = s.drop_last();
        let n = lemma_trimmed_end(rest);
        assert(rest.take(n) =~= s.take(n));
        assert forall|i: int| 0 <= i < s.skip(n).len() implies white_space(
            #[trigger] s.skip(n)[i],
        ) by {
            if i < rest.skip(n).len() {
                assert(rest.skip(n)[i] == s[n + i]);
            }
        }
        n
    } else {
        assert(s.take(s.len() as int) =~= s);
        s.len() as int
    }
}

/// Trimming takes white space off both ends and nothing else.
pub proof fn law_trimming_leaves_the_core(s: Seq<char>)
    ensures
        exists|a: int, b: int| #[trigger] core_of(s, a, b) && trimmed(s) == s.subrange(a, b),
        trimmed(s).len() == 0 <==> blank(s),
{
    let a = lemma_trimmed_start(s);
    let rest = s.skip(a);
    let n = lemma_trimmed_end(rest);
    let b = a + n;
    assert(rest.take(n) =~= s.subrange(a, b));
    assert(rest.skip(n) =~= s.skip(b));
    if n > 0 {
        assert(rest[n - 1] == s[b - 1]);
        assert(a < s.len());
    }
    assert(core_of(s, a, b));
    if n == 0 {
        assert forall|i: int| 0 <= i < s.len() implies white_space(#[trigger] s[i]) by {
            if i < a {
                assert(s.take(a)[i] == s[i]);
            } else {
                assert(s.skip(b)[i - b] == s[i]);
            }
        }
    } else {
        assert(!white_space(s[b - 1]));
    }
}

proof fn lemma_first_index(list: Seq<Seq<char>>, x: Seq<char>)
    ensures
        match first_index(list, x) {
            Some(i) => {
                &&& 0 <= i < list.len() && list[i] == x
                &&& forall|k: int| 0 <= k < i ==> #[trigger] list[k] != x
            },
            None => forall|k: int| 0 <= k < list.len() ==> #[trigger] list[k] != x,
        },
    decreases list.len(),
{
    if list.len() > 0 {
        let init = list.drop_last();
        lemma_first_index(init, x);
        match first_index(init, x) {
            Some(i) => {
                assert(init[i] == list[i]);
                assert forall|k: int| 0 <= k < i implies #[trigger] list[k] != x by {
                    assert(init[k] == list[k]);
                }
            },
            None => {
                assert forall|k: int| 0 <= k < list.len() - 1 implies #[trigger] list[k] != x by {
                    assert(init[k] == list[k]);
                }
            },
        }
    }
}

/// Text for a language waits behind the other text for the language's lane,
/// trimmed, due after the offset. Text for an unknown language is refused and
/// leaves no trace. Blank text is taken and leaves none. When 1024 lines wait the
/// text is refused and counted as dropped on its lane alone.
pub proof fn law_text_waits_for_its_lane(
    x: Inbox,
    lang: Seq<char>,
    text: Seq<char>,
    new_row: bool,
    now_ms: u64,
    lane: int,
)
    requires
        x.wf(),
        now_ms + x.offset_ms <= u64::MAX,
        0 <= lane < x.langs.len(),
        forall|k: int| 0 <= k < lane ==> #[trigger] x.langs[k] != lang,
    ensures
        ({
            let (taken, after) = x.push(lang, text, new_row, now_ms);
            &&& after.langs == x.langs && after.offset_ms == x.offset_ms
            &&& blank(text) ==> after == x
            &&& x.langs[lane] == lang ==> {
                &&& taken <==> blank(text) || x.lines.len() < 1024
                &&& !blank(text) && x.lines.len() < 1024 ==> {
                    &&& after.lines.len() == x.lines.len() + 1
                    &&& after.lines.drop_last() == x.lines
                    &&& after.counters == x.counters
                    &&& after.lines.last().lane == lane
                    &&& after.lines.last().new_row == new_row
                    &&& after.lines.last().due_ms == now_ms + x.offset_ms
                    &&& exists|a: int, b: int| #[trigger]
                        core_of(text, a, b) && after.lines.last().text == text.subrange(a, b)
                }
                &&& !blank(text) && x.lines.len() == 1024 ==> {
                    &&& after.lines == x.lines
                    &&& x.counters[lane].dropped < u64::MAX ==> after.counters[lane].dropped
                        == x.counters[lane].dropped + 1
                    &&& after.counters[lane].pushed == x.counters[lane].pushed
                    &&& after.counters[lane].queued == x.counters[lane].queued
                    &&& forall|k: int|
                        0 <= k < x.counters.len() && k != lane ==> #[trigger] after.counters[k]
                            == x.counters[k]
                }
            }
            &&& (forall|k: int| 0 <= k < x.langs.len() ==> #[trigger] x.langs[k] != lang)
                ==> !taken && after == x
        }),
{
    law_trimming_leaves_the_core(text);
    lemma_first_index(x.langs, lang);
    let (taken, after) = x.push(lang, text, new_row, now_ms);
    if x.langs[lane] == lang {
        assert(first_index(x.langs, lang) == Some(lane));
        if !blank(text) && x.lines.len() < 1024 {
            assert(after.lines.drop_last() =~= x.lines);
            let (a, b) = choose|a: int, b: int| #[trigger]
                core_of(text, a, b) && trimmed(text) == text.subrange(a, b);
            assert(core_of(text, a, b) && after.lines.last().text == text.subrange(a, b));
        }
    }
}

/// How much of the text that waits is for a lane.
pub open spec fn count_for(lines: Seq<Piece>, lane: int) -> nat
    decreases lines.len(),
{
    if lines.len() == 0 {
        0
    } else {
        count_for(lines.drop_first(), lane) + (if lines[0].lane == lane {
            1nat
        } else {
            0
        })
    }
}

/// Discarding leaves nothing waiting, and what waited is counted as dropped on
/// its lane.
pub proof fn law_discarded_text_is_counted(x: Inbox, lane: int)
    requires
        x.wf(),
        0 <= lane < x.counters.len(),
        x.counters[lane].dropped + count_for(x.lines, lane) <= u64::MAX,
    ensures
        ({
            let after = x.discard();
            &&& after.lines.len() == 0
            &&& after.langs == x.langs
            &&& after.counters.len() == x.counters.len()
            &&& after.counters[lane].dropped == x.counters[lane].dropped + count_for(
                x.lines,
                lane,
            )
            &&& after.counters[lane].pushed == x.counters[lane].pushed
            &&& after.counters[lane].queued == x.counters[lane].queued
        }),
    decreases x.lines.len(),
{
    if x.lines.len() > 0 {
        let at = x.lines[0].lane;
        let rest = Inbox { lines: x.lines.drop_first(), ..x };
        let next = if 0 <= at < x.counters.len() {
            rest.dropped(at, 1)
        } else {
            rest
        };
        law_discarded_text_is_counted(next, lane);
    }
}

/// A language is carried where its configuration says: on the service with its
/// number if it has one, with 608 bytes on CC1 or CC3 beside it if they are
/// asked for, else on CC1 as field 0 or on CC3 as field 1. It is refused if it
/// asks for CC2 or CC4, or for nothing at all, and only then.
pub proof fn law_tracks_follow_the_language(l: Language, c: Captions)
    ensures
        track_of(l, c) is Err <==> l.cc608 == Some(Cc608::Cc2) || l.cc608 == Some(Cc608::Cc4) || (
        l.cc608 is None && l.cea708_service is None),
        track_of(l, c) matches Ok(Track::Cea608 { field, mode }) ==> {
            &&& l.cea708_service is None
            &&& l.cc608 == Some(
                if field == 0 {
                    Cc608::Cc1
                } else {
                    Cc608::Cc3
                },
            )
            &&& field <= 1
        },
        track_of(l, c) matches Ok(Track::Cea708 { service, channel, mode, rows }) ==> {
            &&& l.cea708_service is Some && service == l.cea708_service->0
            &&& channel == 1 <==> l.cc608 == Some(Cc608::Cc1)
            &&& channel == 3 <==> l.cc608 == Some(Cc608::Cc3)
            &&& channel == 0 <==> l.cc608 is None
            &&& 2 <= rows <= 4
            &&& 2 <= c.rows <= 4 ==> rows == c.rows
            &&& c.rows < 2 ==> rows == 2
            &&& c.rows > 4 ==> rows == 4
        },
        track_of(l, c) is Ok && l.cea708_service is None ==> track_of(l, c)->Ok_0 is Cea608,
{
}

/// The mode is named after the configuration; on 608 the rows of a roll-up are
/// part of the name.
pub proof fn law_modes_are_named(l: Language, c: Captions)
    ensures
        track_of(l, c) matches Ok(Track::Cea608 { field, mode }) ==> mode == (match c.mode {
            CaptionMode::PopOn => "pop-on"@,
            CaptionMode::PaintOn => "paint-on"@,
            CaptionMode::RollUp => if c.rows <= 2 {
                "roll-up2"@
            } else if c.rows == 3 {
                "roll-up3"@
            } else {
                "roll-up4"@
            },
        }),
        track_of(l, c) matches Ok(Track::Cea708 { service, channel, mode, rows }) ==> mode == (
        match c.mode {
            CaptionMode::PopOn => "pop-on"@,
            CaptionMode::PaintOn => "paint-on"@,
            CaptionMode::RollUp => "roll-up"@,
        }),
{
    reveal_strlit("roll-up");
    reveal_strlit("roll-up2");
    reveal_strlit("roll-up3");
    reveal_strlit("roll-up4");
    assert("roll-up"@ + decimal(2) =~= "roll-up2"@);
    assert("roll-up"@ + decimal(3) =~= "roll-up3"@);
    assert("roll-up"@ + decimal(4) =~= "roll-up4"@);
}

/// The clauses among events, in order.
pub open spec fn clauses_of(list: Seq<Happening>) -> Seq<Request>
    decreases list.len(),
{
    if list.len() == 0 {
        seq![]
    } else {
        match list.last() {
            Happening::Clause { id, text, start_ms, end_ms, new_row } => clauses_of(
                list.drop_last(),
            ).push(Request { id, text, start_ms, end_ms }),
            Happening::Source { text, new_row } => clauses_of(list.drop_last()),
        }
    }
}

/// An inbox that got the source text among events, in order.
pub open spec fn told(x: Inbox, lang: Seq<char>, list: Seq<Happening>, now_ms: u64) -> Inbox
    decreases list.len(),
{
    if list.len() == 0 {
        x
    } else {
        let before = told(x, lang, list.drop_last(), now_ms);
        match list.last() {
            Happening::Source { text, new_row } => before.push(lang, text, new_row, now_ms).1,
            Happening::Clause { id, text, start_ms, end_ms, new_row } => before,
        }
    }
}

/// Source text goes to the source language's lane in the order in which it was
/// heard, whether or not it is translated. Every clause is sent off for
/// translation, in order, and none when nothing is translated.
pub proof fn law_events_go_where_they_belong(
    p: Path,
    list: Seq<Happening>,
    x: Inbox,
    translate: bool,
    now_ms: u64,
)
    ensures
        p.handled(list, x, translate, now_ms).inbox == told(x, p.source, list, now_ms),
        p.handled(list, x, true, now_ms).requests == clauses_of(list),
        p.handled(list, x, false, now_ms).requests.len() == 0,
        p.handled(list, x, false, now_ms).rows == p.rows,
    decreases list.len(),
{
    if list.len() > 0 {
        law_events_go_where_they_belong(p, list.drop_last(), x, translate, now_ms);
        law_events_go_where_they_belong(p, list.drop_last(), x, true, now_ms);
        law_events_go_where_they_belong(p, list.drop_last(), x, false, now_ms);
    }
}

proof fn lemma_row_stays(rows: Seq<(u64, bool)>, id: u64)
    requires
        rows.len() > 1,
        rows[0].0 != id,
    ensures
        row_of(rows.drop_first(), id) == row_of(rows, id),
    decreases rows.len(),
{
    let tail = rows.drop_first();
    assert(tail.last() == rows.last());
    if rows.last().0 != id {
        if rows.len() > 2 {
            assert(tail.drop_last() =~= rows.drop_last().drop_first());
            lemma_row_stays(rows.drop_last(), id);
        } else {
            assert(tail.drop_last() =~= seq![]);
            assert(rows.drop_last().drop_last() =~= seq![]);
            assert(rows.drop_last().last() == rows[0]);
            reveal_with_fuel(row_of, 3);
        }
    }
}

/// The rows of the last 256 clauses are remembered: a new clause takes none away
/// but that of the oldest, and only when 256 are there.
pub proof fn law_recent_rows_are_remembered(p: Path, id: u64, new_row: bool, old_id: u64)
    requires
        p.wf(),
        p.rows.len() > 0 ==> p.rows.last().0 < id,
        old_id < id,
        p.rows.len() == 256 ==> old_id != p.rows[0].0,
    ensures
        ({
            let after = bounded(with_row(p.rows, id, new_row));
            &&& row_of(after, old_id) == row_of(p.rows, old_id)
            &&& row_of(after, id) == new_row
            &&& after.len() <= 256
            &&& p.rows.len() < 256 ==> after.len() == p.rows.len() + 1
            &&& p.rows.len() == 256 ==> after.len() == 256 && after.drop_last()
                == p.rows.drop_first()
        }),
{
    let r = with_row(p.rows, id, new_row);
    assert(r == p.rows.push((id, new_row)));
    assert(r.drop_last() =~= p.rows);
    if p.rows.len() == 256 {
        assert(r[0] == p.rows[0]);
        lemma_row_stays(r, old_id);
        lemma_row_stays(r, id);
        assert(bounded(r).drop_last() =~= p.rows.drop_first());
    }
}

/// A clause that is not remembered starts a row.
pub proof fn law_unknown_clauses_start_a_row(rows: Seq<(u64, bool)>, id: u64)
    requires
        forall|i: int| 0 <= i < rows.len() ==> (#[trigger] rows[i]).0 != id,
    ensures
        row_of(rows, id),
    decreases rows.len(),
{
    if rows.len() > 0 {
        let less = rows.drop_last();
        assert forall|i: int| 0 <= i < less.len() implies (#[trigger] less[i]).0 != id by {
            assert(less[i] == rows[i]);
        }
        assert(rows[rows.len() - 1].0 != id);
        law_unknown_clauses_start_a_row(less, id);
    }
}

} // verus!
