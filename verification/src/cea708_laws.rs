//! What a CEA-708 receiver makes of the units that an encoder queues.
use vstd::prelude::*;

use crate::cea708::{law_trimmed_at_a_line, next_cut, units_of, window_units};
use crate::cea708::{Encoder708, UnitBytes};
use crate::charset::{repertoire_708, shown_708, spelled_708, stand_in};
use crate::text::{items_708, text_items, wrapped, Item};
use crate::wrap_laws::{item_cells, law_line_feeds_are_breaks, law_lines_hold_the_text};
use crate::wrap_laws::law_text_is_shown_in_order;

verus! {

/// A text cell: neither empty nor a command, and none of the codes that start or
/// end a line.
pub open spec fn legible(cell: Seq<u8>) -> bool {
    &&& cell.len() > 0
    &&& cell[0] >= 0x20 || (cell[0] == 0x10 && cell.len() == 2)
    &&& !(0x80 <= cell[0] <= 0x9F)
}

/// Lines of text cells only.
pub open spec fn all_legible(lines: Seq<Seq<Seq<u8>>>) -> bool {
    forall|k: int, j: int|
        #![trigger lines[k][j]]
        0 <= k < lines.len() && 0 <= j < lines[k].len() ==> legible(lines[k][j])
}

/// What a receiver has on its screen and in its window.
pub struct Reading {
    /// The lines that were written, oldest first.
    pub lines: Seq<Seq<Seq<u8>>>,
    /// The definitions of window 0: rows and columns, oldest first.
    pub windows: Seq<(int, int)>,
    /// The last line is still being written.
    pub open: bool,
}

/// What a receiver does with one unit: carriage return starts a line below the
/// others, end of text hands it over, DefineWindow 0 sets the size, other
/// commands change no text, and everything else is a character.
pub open spec fn read_unit(r: Reading, unit: Seq<u8>) -> Reading {
    if unit == seq![0x0Du8] {
        Reading { lines: r.lines.push(seq![]), open: true, ..r }
    } else if unit == seq![0x03u8] {
        Reading { open: false, ..r }
    } else if unit.len() == 7 && unit[0] == 0x98 {
        Reading { windows: r.windows.push((unit[4] % 16 + 1, unit[5] % 64 + 1)), ..r }
    } else if unit.len() > 0 && 0x80 <= unit[0] <= 0x9F {
        r
    } else if r.lines.len() > 0 && r.open {
        Reading {
            lines: r.lines.update(r.lines.len() - 1, r.lines.last().push(unit)),
            ..r
        }
    } else {
        r
    }
}

/// What a receiver has made of a queue of units.
pub open spec fn read(queue: Seq<UnitBytes>) -> Reading
    decreases queue.len(),
{
    if queue.len() == 0 {
        Reading { lines: seq![], windows: seq![], open: false }
    } else {
        read_unit(read(queue.drop_last()), queue.last().bytes)
    }
}

/// How many of `n` lines start with the window definition when `since` lines
/// were sent since the last one.
pub open spec fn definitions(since: int, n: int) -> int
    decreases n,
{
    if n <= 0 {
        0
    } else if since >= 4 {
        1 + definitions(1, n - 1)
    } else {
        definitions(since + 1, n - 1)
    }
}

proof fn lemma_read_push(queue: Seq<UnitBytes>, unit: UnitBytes)
    ensures
        read(queue.push(unit)) == read_unit(read(queue), unit.bytes),
{
    assert(queue.push(unit).drop_last() =~= queue);
}

/// The cells of a line are written one behind the other.
proof fn lemma_cells_are_read(queue: Seq<UnitBytes>, cells: Seq<UnitBytes>)
    requires
        read(queue).open,
        read(queue).lines.len() > 0,
        forall|k: int| 0 <= k < cells.len() ==> legible((#[trigger] cells[k]).bytes),
    ensures
        ({
            let a = read(queue);
            let b = read(queue + cells);
            let texts = Seq::new(cells.len(), |k: int| cells[k].bytes);
            &&& b.open
            &&& b.windows == a.windows
            &&& b.lines == a.lines.update(a.lines.len() - 1, a.lines.last() + texts)
        }),
    decreases cells.len(),
{
    let a = read(queue);
    let texts = Seq::new(cells.len(), |k: int| cells[k].bytes);
    if cells.len() == 0 {
        assert(queue + cells =~= queue);
        assert(a.lines.last() + texts =~= a.lines.last());
        assert(a.lines.update(a.lines.len() - 1, a.lines.last()) =~= a.lines);
    } else {
        let head = cells.drop_last();
        assert forall|k: int| 0 <= k < head.len() implies legible((#[trigger] head[k]).bytes) by {
            assert(head[k] == cells[k]);
        }
        lemma_cells_are_read(queue, head);
        assert((queue + cells).drop_last() =~= queue + head);
        let unit = cells[cells.len() - 1].bytes;
        assert(legible(unit));
        assert(unit[0] != 0x0D && unit[0] != 0x03);
        let short = Seq::new(head.len(), |k: int| head[k].bytes);
        assert(a.lines.last() + texts =~= (a.lines.last() + short).push(unit));
        let b = read(queue + head);
        assert(b.lines.update(b.lines.len() - 1, b.lines.last().push(unit)) =~= a.lines.update(
            a.lines.len() - 1,
            a.lines.last() + texts,
        ));
    }
}

/// One line is read as one line.
proof fn lemma_line_is_read(e: Encoder708, line: Seq<Seq<u8>>)
    requires
        e.wf(),
        forall|j: int| 0 <= j < line.len() ==> legible(#[trigger] line[j]),
    ensures
        ({
            let a = read(e.queue);
            let b = read(e.lined(line).queue);
            &&& b.lines == a.lines.push(line)
            &&& !b.open
            &&& b.windows == (if e.since_define >= 4 {
                a.windows.push((e.rows as int, e.columns as int))
            } else {
                a.windows
            })
        }),
{
    let a = read(e.queue);
    let bytes = e.line_bytes(line);
    let units = units_of(bytes, true);
    let w = window_units(e.rows, e.columns);
    let skip = if e.since_define >= 4 { 4int } else { 0int };
    let front = e.queue + units.take(skip);
    if e.since_define >= 4 {
        let q0 = e.queue.push(units[0]);
        let q1 = q0.push(units[1]);
        let q2 = q1.push(units[2]);
        let q3 = q2.push(units[3]);
        lemma_read_push(e.queue, units[0]);
        lemma_read_push(q0, units[1]);
        lemma_read_push(q1, units[2]);
        lemma_read_push(q2, units[3]);
        assert(front =~= q3);
        assert(units[0].bytes == w[0] && units[1].bytes == w[1] && units[2].bytes == w[2]
            && units[3].bytes == w[3]);
    } else {
        assert(front =~= e.queue);
    }
    let started = front.push(units[skip]);
    lemma_read_push(front, units[skip]);
    assert(units[skip].bytes =~= seq![0x0Du8]);
    let cells = units.subrange(skip + 1, skip + 1 + line.len());
    assert forall|k: int| 0 <= k < cells.len() implies legible((#[trigger] cells[k]).bytes) by {
        assert(cells[k].bytes == line[k]);
    }
    lemma_cells_are_read(started, cells);
    let texts = Seq::new(cells.len(), |k: int| cells[k].bytes);
    assert(texts =~= line);
    let s = read(started);
    assert(s.lines.last() + texts =~= line);
    assert(s.lines.update(s.lines.len() - 1, line) =~= a.lines.push(line));
    let last = units[skip + 1 + line.len()];
    assert(last.bytes =~= seq![0x03u8]);
    lemma_read_push(started + cells, last);
    assert(e.lined(line).queue =~= (started + cells).push(last));
    assert(seq![0x03u8][0] != seq![0x0Du8][0]);
}

/// A receiver reads what was queued: behind what it had before, every line
/// comes as one line with its characters in order, and is handed over. The window
/// is defined with the encoder's rows and columns before the first line of a new
/// encoder and before every fourth line from there on.
pub proof fn law_lines_are_read_back(e: Encoder708, lines: Seq<Seq<Seq<u8>>>)
    requires
        e.wf(),
        all_legible(lines),
    ensures
        ({
            let a = read(e.queue);
            let b = read(e.lined_all(lines).queue);
            let n = definitions(e.since_define as int, lines.len() as int);
            &&& b.lines == a.lines + lines
            &&& lines.len() > 0 ==> !b.open
            &&& b.windows == a.windows + Seq::new(
                n as nat,
                |k: int| (e.rows as int, e.columns as int),
            )
        }),
    decreases lines.len(),
{
    let a = read(e.queue);
    if lines.len() == 0 {
        assert(a.lines + lines =~= a.lines);
        assert(a.windows + Seq::new(0nat, |k: int| (e.rows as int, e.columns as int))
            =~= a.windows);
    } else {
        let next = e.lined(lines[0]);
        let rest = lines.drop_first();
        assert forall|j: int| 0 <= j < lines[0].len() implies legible(#[trigger] lines[0][j]) by {}
        lemma_line_is_read(e, lines[0]);
        assert forall|k: int, j: int|
            #![trigger rest[k][j]]
            0 <= k < rest.len() && 0 <= j < rest[k].len() implies legible(rest[k][j]) by {
            assert(rest[k] == lines[k + 1]);
            assert(legible(lines[k + 1][j]));
        }
        law_lines_are_read_back(next, rest);
        lemma_definitions(next.since_define as int, rest.len() as int);
        let m = read(next.queue);
        assert(a.lines.push(lines[0]) + rest =~= a.lines + lines);
        let n = definitions(e.since_define as int, lines.len() as int);
        let n1 = definitions(next.since_define as int, rest.len() as int);
        let size = (e.rows as int, e.columns as int);
        assert(a.windows + Seq::new(n as nat, |k: int| size) =~= m.windows + Seq::new(
            n1 as nat,
            |k: int| size,
        ));
        assert(a.windows + Seq::new(n as nat, |k: int| (e.rows as int, e.columns as int))
            =~= a.windows + Seq::new(n as nat, |k: int| size));
        assert(m.windows + Seq::new(n1 as nat, |k: int| size) =~= read(
            e.lined_all(lines).queue,
        ).windows);
    }
}

proof fn lemma_definitions(since: int, n: int)
    requires
        n >= 0,
    ensures
        definitions(since, n) >= 0,
    decreases n,
{
    if n > 0 {
        lemma_definitions(1, n - 1);
        lemma_definitions(since + 1, n - 1);
    }
}

/// Four lines in a row never pass without a window definition.
pub proof fn law_late_joiners_get_a_window(since: int, n: int)
    requires
        0 <= since <= 4,
        n >= 5 - since,
    ensures
        definitions(since, n) >= 1,
    decreases n,
{
    if since >= 4 {
        lemma_definitions(1, n - 1);
    } else {
        law_late_joiners_get_a_window(since + 1, n - 1);
    }
}

/// The window definition reads as: window 0, visible; anchored with its bottom
/// centre at 90 percent down and 50 percent across; so many rows and columns;
/// window style 4 and pen style 1; solid black without border, left-justified,
/// scrolling from the bottom up; a standard pen with normal offset; white on solid
/// black.
pub proof fn law_the_window_is_at_the_bottom(rows: u8, columns: u8)
    requires
        1 <= rows <= 12,
        1 <= columns <= 42,
    ensures
        ({
            let w = window_units(rows, columns);
            let df = w[0];
            let swa = w[1];
            let spa = w[2];
            let spc = w[3];
            &&& w.len() == 4
            &&& df.len() == 7 && df[0] == 0x98
            &&& (df[1] / 32) % 2 == 1
            &&& df[2] / 128 == 1 && df[2] % 128 == 90 && df[3] == 50
            &&& df[4] / 16 == 7 && df[4] % 16 + 1 == rows
            &&& df[5] / 64 == 0 && df[5] % 64 + 1 == columns
            &&& (df[6] / 8) % 8 == 4 && df[6] % 8 == 1
            &&& swa.len() == 5 && swa[0] == 0x97
            &&& swa[1] == 0 && swa[2] == 0 && swa[4] == 0
            &&& swa[3] % 4 == 0 && (swa[3] / 4) % 4 == 3 && swa[3] / 16 == 0
            &&& spa.len() == 3 && spa[0] == 0x90
            &&& spa[1] % 4 == 1 && (spa[1] / 4) % 4 == 1 && spa[1] / 16 == 0 && spa[2] == 0
            &&& spc.len() == 4 && spc[0] == 0x91
            &&& spc[1] == 63 && spc[2] == 0 && spc[3] == 0
        }),
{
}

/// Lines can be cut off the front of a queue: the first unit of every line is
/// marked, and no other.
pub proof fn law_line_starts_are_marked(e: Encoder708, line: Seq<Seq<u8>>)
    ensures
        ({
            let q = e.lined(line).queue;
            let n = e.queue.len() as int;
            &&& q.len() > n + 1
            &&& q.take(n) == e.queue
            &&& q[n].line_start
            &&& forall|k: int| n < k < q.len() ==> !(#[trigger] q[k]).line_start
        }),
{
    let q = e.lined(line).queue;
    assert(q.take(e.queue.len() as int) =~= e.queue);
}

proof fn lemma_repertoire_is_legible(c: char)
    ensures
        repertoire_708(c) matches Some(cell) ==> legible(cell),
{
}

proof fn lemma_spelled_is_legible(s: Seq<char>)
    ensures
        forall|k: int| 0 <= k < spelled_708(s).len() ==> legible(#[trigger] spelled_708(s)[k]),
    decreases s.len(),
{
    if s.len() > 0 {
        lemma_spelled_is_legible(s.drop_last());
        lemma_repertoire_is_legible(s.last());
        let head = spelled_708(s.drop_last());
        let all = spelled_708(s);
        assert forall|k: int| 0 <= k < all.len() implies legible(#[trigger] all[k]) by {
            if k < head.len() {
                assert(all[k] == head[k]);
            }
        }
    }
}

proof fn lemma_text_is_legible(text: Seq<char>)
    ensures
        forall|k: int|
            0 <= k < item_cells(items_708(text)).len() ==> legible(
                #[trigger] item_cells(items_708(text))[k],
            ),
    decreases text.len(),
{
    let shown = |c: char| shown_708(c);
    if text.len() > 0 {
        let head = text.drop_last();
        let c = text.last();
        lemma_text_is_legible(head);
        lemma_repertoire_is_legible(c);
        if let Some(s) = stand_in(c) {
            lemma_spelled_is_legible(s);
        }
        law_text_is_shown_in_order(head, seq![c], shown);
        law_line_feeds_are_breaks(c, shown);
        assert(head + seq![c] =~= text);
        lemma_item_cells_add(text_items(head, shown), text_items(seq![c], shown));
        let all = item_cells(items_708(text));
        let front = item_cells(items_708(head));
        let back = item_cells(text_items(seq![c], shown));
        assert(all == front + back);
        if c == '\n' {
            let b = text_items(seq![c], shown);
            assert(b.drop_last() =~= seq![]);
            assert(item_cells(b.drop_last()) =~= seq![]);
            assert(back =~= seq![]);
        } else {
            assert(back == shown_708(c));
        }
        assert forall|k: int| 0 <= k < all.len() implies legible(#[trigger] all[k]) by {
            if k < front.len() {
                assert(all[k] == front[k]);
            } else {
                assert(all[k] == back[k - front.len()]);
            }
        }
    }
}

proof fn lemma_item_cells_add<V>(a: Seq<Item<V>>, b: Seq<Item<V>>)
    ensures
        item_cells(a + b) == item_cells(a) + item_cells(b),
    decreases b.len(),
{
    if b.len() == 0 {
        assert(a + b =~= a);
        assert(item_cells(a) + item_cells(b) =~= item_cells(a));
    } else {
        lemma_item_cells_add(a, b.drop_last());
        assert((a + b).drop_last() =~= a + b.drop_last());
        assert(item_cells(a + b) =~= item_cells(a) + item_cells(b));
    }
}

/// A receiver reads the text that was pushed, wrapped at the window's width, as
/// long as no more than 4000 units wait.
pub proof fn law_texts_are_read_back(e: Encoder708, text: Seq<char>)
    requires
        e.wf(),
        e.lined_all(wrapped(items_708(text), e.columns as nat, seq![0x20u8])).queue.len() <= 4000,
    ensures
        ({
            let lines = wrapped(items_708(text), e.columns as nat, seq![0x20u8]);
            &&& all_legible(lines)
            &&& read(e.captioned(text).queue).lines == read(e.queue).lines + lines
        }),
{
    let blank = seq![0x20u8];
    let items = items_708(text);
    let lines = wrapped(items, e.columns as nat, blank);
    lemma_text_is_legible(text);
    assert forall|k: int, j: int|
        #![trigger lines[k][j]]
        0 <= k < lines.len() && 0 <= j < lines[k].len() implies legible(lines[k][j]) by {
        if lines[k][j] != blank {
            law_lines_hold_the_text(items, e.columns as nat, blank, k, j);
            let cells = item_cells(items);
            let i = choose|i: int| 0 <= i < cells.len() && cells[i] == lines[k][j];
            assert(legible(cells[i]));
        }
    }
    law_lines_are_read_back(e, lines);
    law_queues_are_bounded(e.lined_all(lines));
}

/// Up to 4000 units wait without loss, and never more. Units are dropped from
/// the front, the drop is counted, and the window is due again with the next
/// line.
pub proof fn law_queues_are_bounded(e: Encoder708)
    ensures
        e.queue.len() <= 4000 ==> e.trimmed() == e,
        e.queue.len() > 4000 ==> {
            let left = e.trimmed();
            let n = e.queue.len() - left.queue.len();
            &&& left.queue.len() <= 4000
            &&& left.queue == e.queue.skip(n)
            &&& left.queue.len() > 0 ==> left.queue[0].line_start
            &&& e.dropped + n <= u64::MAX ==> left.dropped == e.dropped + n
            &&& left.since_define >= 4
            &&& forall|k: int|
                0 < k < n && e.queue.len() - k <= 4000 ==> !(#[trigger] e.queue[k]).line_start
        },
{
    law_trimmed_at_a_line(e);
    if e.queue.len() > 4000 {
        lemma_cut_is_least(e.queue, 1);
    }
}

proof fn lemma_cut_is_least(queue: Seq<UnitBytes>, from: int)
    requires
        0 <= from <= queue.len(),
    ensures
        forall|k: int|
            from <= k < next_cut(queue, from) && queue.len() - k <= 4000 ==> !(
            #[trigger] queue[k]).line_start,
    decreases queue.len() - from,
{
    if from < queue.len() && !(queue[from].line_start && queue.len() - from <= 4000) {
        lemma_cut_is_least(queue, from + 1);
    }
}

} // verus!
