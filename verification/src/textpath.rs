//! The way of text to the caption lanes: committed words through the segmenter to
//! the source lane, closed clauses to translation, and translations to their
//! lanes. Times are milliseconds on a clock that does not go back.
use vstd::prelude::*;

use crate::captions::{CaptionHandle, Inbox};
use crate::chars::texts;
use crate::segment::{all_said, happening, happenings, Event, Happening, Seg, Segmenter};
use crate::types::{Clause, Translation, Word};

verus! {

/// Clauses whose rows are remembered for their translations.
pub const MAX_ROWS: usize = 256;

/// What a clause says.
#[verifier::ext_equal]
pub struct Request {
    pub id: u64,
    pub text: Seq<char>,
    pub start_ms: u64,
    pub end_ms: u64,
}

/// What clauses say.
pub open spec fn requests(list: Seq<Clause>) -> Seq<Request> {
    list.map_values(
        |c: Clause| Request { id: c.id, text: c.text@, start_ms: c.start_ms, end_ms: c.end_ms },
    )
}

/// Rows with one more clause, in the order of the clauses' numbers.
pub open spec fn with_row(rows: Seq<(u64, bool)>, id: u64, new_row: bool) -> Seq<(u64, bool)>
    decreases rows.len(),
{
    if rows.len() == 0 || rows.last().0 < id {
        rows.push((id, new_row))
    } else if rows.last().0 == id {
        rows.update(rows.len() - 1, (id, new_row))
    } else {
        with_row(rows.drop_last(), id, new_row).push(rows.last())
    }
}

/// Rows without the lowest clause if there are too many.
pub open spec fn bounded(rows: Seq<(u64, bool)>) -> Seq<(u64, bool)> {
    if rows.len() > MAX_ROWS {
        rows.drop_first()
    } else {
        rows
    }
}

/// Whether a clause's translation starts a new row; it does if the clause is
/// not known any more.
pub open spec fn row_of(rows: Seq<(u64, bool)>, id: u64) -> bool
    decreases rows.len(),
{
    if rows.len() == 0 {
        true
    } else if rows.last().0 == id {
        rows.last().1
    } else {
        row_of(rows.drop_last(), id)
    }
}

/// What the path of text remembers.
#[verifier::ext_equal]
pub struct Path {
    pub seg: Seg,
    /// The source language.
    pub source: Seq<char>,
    /// The languages to translate into.
    pub targets: Seq<Seq<char>>,
    /// For each clause under translation, whether it starts a new row.
    pub rows: Seq<(u64, bool)>,
}

/// What events lead to: text in the inbox, rows to remember, clauses to
/// translate.
#[verifier::ext_equal]
pub struct Effects {
    pub inbox: Inbox,
    pub rows: Seq<(u64, bool)>,
    pub requests: Seq<Request>,
}

impl Effects {
    /// One more event.
    pub open spec fn event(
        self,
        e: Happening,
        source: Seq<char>,
        translate: bool,
        now_ms: u64,
    ) -> Effects {
        match e {
            Happening::Source { text, new_row } => Effects {
                inbox: self.inbox.push(source, text, new_row, now_ms).1,
                ..self
            },
            Happening::Clause { id, text, start_ms, end_ms, new_row } => if translate {
                Effects {
                    rows: bounded(with_row(self.rows, id, new_row)),
                    requests: self.requests.push(Request { id, text, start_ms, end_ms }),
                    ..self
                }
            } else {
                self
            },
        }
    }

    /// Events one after the other.
    pub open spec fn events(
        self,
        list: Seq<Happening>,
        source: Seq<char>,
        translate: bool,
        now_ms: u64,
    ) -> Effects
        decreases list.len(),
    {
        if list.len() == 0 {
            self
        } else {
            self.events(list.drop_last(), source, translate, now_ms).event(
                list.last(),
                source,
                translate,
                now_ms,
            )
        }
    }
}

impl Path {
    /// The open clause is not full, and rows are in order and not too many.
    pub open spec fn wf(self) -> bool {
        &&& self.seg.wf()
        &&& self.rows.len() <= MAX_ROWS
        &&& forall|i: int, j: int|
            0 <= i < j < self.rows.len() ==> self.rows[i].0 < self.rows[j].0
    }

    /// What events lead to.
    pub open spec fn handled(
        self,
        list: Seq<Happening>,
        inbox: Inbox,
        translate: bool,
        now_ms: u64,
    ) -> Effects {
        Effects { inbox, rows: self.rows, requests: seq![] }.events(
            list,
            self.source,
            translate,
            now_ms,
        )
    }
}

/// The path of text from the workers to the caption lanes.
pub struct TextPath {
    seg: Segmenter,
    source: String,
    targets: Vec<String>,
    rows: Vec<(u64, bool)>,
}

impl View for TextPath {
    type V = Path;

    closed spec fn view(&self) -> Path {
        Path {
            seg: self.seg@,
            source: self.source@,
            targets: texts(self.targets@),
            rows: self.rows@,
        }
    }
}

proof fn lemma_with_row_ordered(rows: Seq<(u64, bool)>, id: u64, new_row: bool)
    requires
        forall|i: int, j: int| 0 <= i < j < rows.len() ==> rows[i].0 < rows[j].0,
    ensures
        ({
            let r = with_row(rows, id, new_row);
            &&& forall|i: int, j: int| 0 <= i < j < r.len() ==> r[i].0 < r[j].0
            &&& rows.len() <= r.len() <= rows.len() + 1
            &&& r.len() > 0
            &&& r.last().0 == id || (rows.len() > 0 && r.last().0 == rows.last().0 && id
                < rows.last().0)
        }),
    decreases rows.len(),
{
    if rows.len() > 0 && rows.last().0 > id {
        let init = rows.drop_last();
        assert forall|i: int, j: int| 0 <= i < j < init.len() implies init[i].0 < init[j].0 by {
            assert(init[i] == rows[i] && init[j] == rows[j]);
        }
        lemma_with_row_ordered(init, id, new_row);
        let r0 = with_row(init, id, new_row);
        let r = r0.push(rows.last());
        if init.len() > 0 {
            assert(rows[init.len() - 1].0 < rows[rows.len() - 1].0);
        }
        assert forall|i: int, j: int| 0 <= i < j < r.len() implies r[i].0 < r[j].0 by {
            if j < r0.len() {
                assert(r0[i].0 < r0[j].0);
            } else if i < r0.len() - 1 {
                assert(r0[i].0 < r0[r0.len() - 1].0);
            }
        }
    }
}

impl TextPath {
    /// A path with nothing on it.
    pub fn new(max_wait_ms: u64, source: String, targets: Vec<String>) -> (r: Self)
        ensures
            r@ == (Path {
                seg: Seg::fresh(max_wait_ms),
                source: source@,
                targets: texts(targets@),
                rows: seq![],
            }),
            r@.wf(),
    {
        let r = TextPath { seg: Segmenter::new(max_wait_ms), source, targets, rows: Vec::new() };
        assert(r.rows@ =~= seq![]);
        r
    }

    /// The languages to translate into.
    pub fn targets(&self) -> (r: &Vec<String>)
        ensures
            texts(r@) == self@.targets,
    {
        &self.targets
    }

    fn remember(&mut self, id: u64, new_row: bool)
        requires
            old(self)@.wf(),
        ensures
            final(self)@ == (Path {
                rows: bounded(with_row(old(self)@.rows, id, new_row)),
                ..old(self)@
            }),
            final(self)@.wf(),
    {
        let ghost rows0 = self.rows@;
        proof {
            lemma_with_row_ordered(rows0, id, new_row);
        }
        let mut i: usize = self.rows.len();
        let ghost target = with_row(rows0, id, new_row);
        assert(rows0.take(i as int) =~= rows0);
        assert(target =~= with_row(rows0.take(i as int), id, new_row) + rows0.skip(i as int));
        while i > 0 && self.rows[i - 1].0 > id
            invariant
                i <= rows0.len(),
                self.rows@ == rows0,
                target == with_row(rows0.take(i as int), id, new_row) + rows0.skip(i as int),
            decreases i,
        {
            proof {
                let t = rows0.take(i as int);
                assert(t.drop_last() =~= rows0.take(i - 1));
                assert(t.last() == rows0[i - 1]);
                assert(target =~= with_row(rows0.take(i - 1), id, new_row) + rows0.skip(i - 1));
            }
            i -= 1;
        }
        let ghost t = rows0.take(i as int);
        if i > 0 && self.rows[i - 1].0 == id {
            self.rows.set(i - 1, (id, new_row));
            proof {
                assert(t.last() == rows0[i - 1]);
                assert(self.rows@ =~= target);
            }
        } else {
            self.rows.insert(i, (id, new_row));
            proof {
                if i > 0 {
                    assert(t.last() == rows0[i - 1]);
                }
                assert(self.rows@ =~= target);
            }
        }
        if self.rows.len() > MAX_ROWS {
            let gone = self.rows.remove(0);
            assert(self.rows@ =~= target.drop_first());
        }
    }

    /// Whether a clause's translation starts a new row.
    pub fn row(&self, id: u64) -> (r: bool)
        ensures
            r == row_of(self@.rows, id),
    {
        let mut i: usize = self.rows.len();
        assert(self.rows@.take(i as int) =~= self.rows@);
        while i > 0
            invariant
                i <= self.rows@.len(),
                row_of(self.rows@, id) == row_of(self.rows@.take(i as int), id),
            decreases i,
        {
            assert(self.rows@.take(i as int).drop_last() =~= self.rows@.take(i - 1));
            assert(self.rows@.take(i as int).last() == self.rows@[i - 1]);
            if self.rows[i - 1].0 == id {
                return self.rows[i - 1].1;
            }
            i -= 1;
        }
        true
    }

    /// Puts events where they belong; returns the clauses to translate.
    fn handle(
        &mut self,
        events: Vec<Event>,
        captions: &mut CaptionHandle,
        translate: bool,
        now_ms: u64,
    ) -> (out: Vec<Clause>)
        requires
            old(self)@.wf(),
            old(captions)@.wf(),
            now_ms + old(captions)@.offset_ms <= u64::MAX,
        ensures
            (Effects {
                inbox: final(captions)@,
                rows: final(self)@.rows,
                requests: requests(out@),
            }) == old(self)@.handled(
                happenings(events@),
                old(captions)@,
                translate,
                now_ms,
            ),
            final(self)@ == (Path { rows: final(self)@.rows, ..old(self)@ }),
            final(self)@.wf(),
            final(captions)@.wf(),
            final(captions)@.offset_ms == old(captions)@.offset_ms,
    {
        let mut out: Vec<Clause> = Vec::new();
        let ghost all = happenings(events@);
        let ghost start = Effects { inbox: captions@, rows: self@.rows, requests: seq![] };
        assert(requests(out@) =~= seq![]);
        let mut i: usize = 0;
        while i < events.len()
            invariant
                i <= events@.len(),
                all == happenings(events@),
                self@.wf(),
                captions@.wf(),
                captions@.offset_ms == old(captions)@.offset_ms,
                now_ms + old(captions)@.offset_ms <= u64::MAX,
                self@ == (Path { rows: self@.rows, ..old(self)@ }),
                (Effects { inbox: captions@, rows: self@.rows, requests: requests(out@) })
                    == start.events(all.take(i as int), old(self)@.source, translate, now_ms),
            decreases events.len() - i,
        {
            proof {
                assert(all.take(i + 1).drop_last() =~= all.take(i as int));
                assert(all.take(i + 1).last() == happening(events@[i as int]));
            }
            match &events[i] {
                Event::Source { text, new_row } => {
                    let taken = captions.push(
                        self.source.as_str(),
                        text.as_str(),
                        *new_row,
                        now_ms,
                    );
                },
                Event::Clause { clause, new_row } => {
                    if translate {
                        self.remember(clause.id, *new_row);
                        let ghost before = requests(out@);
                        let c = Clause {
                            id: clause.id,
                            text: clause.text.clone(),
                            start_ms: clause.start_ms,
                            end_ms: clause.end_ms,
                        };
                        out.push(c);
                        assert(requests(out@) =~= before.push(
                            Request {
                                id: clause.id,
                                text: clause.text@,
                                start_ms: clause.start_ms,
                                end_ms: clause.end_ms,
                            },
                        ));
                    }
                },
            }
            i += 1;
        }
        assert(all.take(all.len() as int) =~= all);
        out
    }

    /// Takes newly committed words; returns the clauses to translate.
    pub fn words(
        &mut self,
        words: &[Word],
        captions: &mut CaptionHandle,
        translate: bool,
        now_ms: u64,
    ) -> (out: Vec<Clause>)
        requires
            old(self)@.wf(),
            old(captions)@.wf(),
            now_ms + old(captions)@.offset_ms <= u64::MAX,
        ensures
            ({
                let (list, seg) = old(self)@.seg.hear(all_said(words@), now_ms);
                let effects = old(self)@.handled(list, old(captions)@, translate, now_ms);
                &&& requests(out@) == effects.requests
                &&& final(captions)@ == effects.inbox
                &&& final(self)@ == (Path { seg, rows: effects.rows, ..old(self)@ })
            }),
            final(self)@.wf(),
            final(captions)@.wf(),
            final(captions)@.offset_ms == old(captions)@.offset_ms,
    {
        let events = self.seg.words(words, now_ms);
        self.handle(events, captions, translate, now_ms)
    }

    /// Looks at the clock; returns the clauses to translate.
    pub fn tick(
        &mut self,
        captions: &mut CaptionHandle,
        translate: bool,
        now_ms: u64,
    ) -> (out: Vec<Clause>)
        requires
            old(self)@.wf(),
            old(captions)@.wf(),
            now_ms + old(captions)@.offset_ms <= u64::MAX,
        ensures
            ({
                let (list, seg) = old(self)@.seg.tick(now_ms);
                let effects = old(self)@.handled(list, old(captions)@, translate, now_ms);
                &&& requests(out@) == effects.requests
                &&& final(captions)@ == effects.inbox
                &&& final(self)@ == (Path { seg, rows: effects.rows, ..old(self)@ })
            }),
            final(self)@.wf(),
            final(captions)@.wf(),
            final(captions)@.offset_ms == old(captions)@.offset_ms,
    {
        let events = self.seg.tick(now_ms);
        self.handle(events, captions, translate, now_ms)
    }

    /// Takes a translation; returns false if its language has no lane or the
    /// lanes do not keep up.
    pub fn translated(
        &self,
        t: &Translation,
        captions: &mut CaptionHandle,
        now_ms: u64,
    ) -> (r: bool)
        requires
            old(captions)@.wf(),
            now_ms + old(captions)@.offset_ms <= u64::MAX,
        ensures
            (r, final(captions)@) == old(captions)@.push(
                t.lang@,
                t.text@,
                row_of(self@.rows, t.clause_id),
                now_ms,
            ),
            final(captions)@.wf(),
    {
        let row = self.row(t.clause_id);
        captions.push(t.lang.as_str(), t.text.as_str(), row, now_ms)
    }
}

proof fn lemma_row_found(rows: Seq<(u64, bool)>, id: u64, new_row: bool)
    ensures
        row_of(with_row(rows, id, new_row), id) == new_row,
    decreases rows.len(),
{
    if rows.len() > 0 && rows.last().0 > id {
        lemma_row_found(rows.drop_last(), id, new_row);
        let r = with_row(rows.drop_last(), id, new_row);
        assert(r.push(rows.last()).drop_last() =~= r);
    }
}

proof fn lemma_row_survives(rows: Seq<(u64, bool)>, id: u64)
    requires
        rows.len() > 1,
        rows[0].0 != id,
    ensures
        row_of(rows.drop_first(), id) == row_of(rows, id),
    decreases rows.len(),
{
    let tail = rows.drop_first();
    assert(tail.last() == rows.last());
    if rows.last().0 != id {
        if rows.len() > 2 {
            assert(tail.drop_last() =~= rows.drop_last().drop_first());
            lemma_row_survives(rows.drop_last(), id);
        } else {
            assert(tail.drop_last() =~= seq![]);
            assert(rows.drop_last().drop_last() =~= seq![]);
            assert(rows.drop_last().last() == rows[0]);
            reveal_with_fuel(row_of, 3);
        }
    }
}

/// A clause's translations go on the row that the clause was put on: what was
/// remembered for the newest clause is what its translations find.
pub proof fn law_translations_find_their_row(p: Path, id: u64, new_row: bool)
    requires
        p.wf(),
        p.rows.len() > 0 ==> p.rows.last().0 < id,
    ensures
        row_of(bounded(with_row(p.rows, id, new_row)), id) == new_row,
{
    let r = with_row(p.rows, id, new_row);
    lemma_row_found(p.rows, id, new_row);
    if r.len() > MAX_ROWS {
        assert(r[0] == p.rows[0]);
        assert(p.rows[0].0 <= p.rows.last().0);
        lemma_row_survives(r, id);
    }
}

} // verus!
