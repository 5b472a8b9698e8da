//! What a CEA-608 encoder keeps over a run of texts, and what draining it shows of
//! the lines that went into it.
use vstd::prelude::*;

use crate::cc::{law_parity_is_odd, ones, with_parity, Channel};
use crate::cea608::{
    at_border, cut_point, law_trimmed_at_a_line, lemma_sent_all_concat, lemma_sent_all_keeps,
    next_cut, parity_pair, text_codes, Code, Encoder608, Mode608, Pair, COLUMNS, CR, DER,
    MAX_QUEUE_PAIRS, RU2,
};
use crate::charset::{repertoire_608, shown_608, spelled_608, stand_in, Cell};
use crate::counter::counted;
use crate::text::{items_608, text_items, wrapped, Item};
use crate::wrap_laws::{
    ink, item_cells, joined, law_wrapped_lines_are_tidy, law_wrapping_keeps_the_text, tidy,
};

verus! {

/// The codes of one roll-up line: mode, carriage return, row and text.
pub open spec fn line_codes(e: Encoder608, rows: u8, line: Seq<Cell>) -> Seq<Code> {
    seq![e.control_code((RU2 + rows - 2) as u8, true), e.control_code(CR, false)] + e.row_codes(
        e.base_row as int,
        line,
    )
}

/// The place in the queue at which each roll-up line begins.
pub open spec fn line_starts(e: Encoder608, rows: u8, lines: Seq<Seq<Cell>>) -> Seq<int>
    decreases lines.len(),
{
    if lines.len() == 0 {
        seq![]
    } else {
        seq![e.queue.len() as int] + line_starts(
            e.sent_all(line_codes(e, rows, lines[0])),
            rows,
            lines.drop_first(),
        )
    }
}

/// The pair that starts a roll-up line.
pub open spec fn mode_pair(e: Encoder608, rows: u8) -> Pair {
    parity_pair(e.channel.misc(), (RU2 + rows - 2) as u8, true)
}

/// The pair queued last is not the one that starts a roll-up line, which has to
/// be told apart from it by a filler.
pub open spec fn ready(e: Encoder608, rows: u8) -> bool {
    e.last != Some((mode_pair(e, rows).hi, mode_pair(e, rows).lo))
}

/// The lines of a text.
pub open spec fn text_lines_608(text: Seq<char>) -> Seq<Seq<Cell>> {
    wrapped(items_608(text), COLUMNS as nat, Cell::Basic(0x20))
}

/// A cell whose bytes a receiver takes for a character.
pub open spec fn printable(cell: Cell) -> bool {
    match cell {
        Cell::Basic(b) => 0x20 <= b <= 0x7F,
        Cell::Special(lo) => 0x30 <= lo <= 0x3F,
        Cell::Extended { set, lo, base } => (set == 0x12 || set == 0x13) && 0x20 <= lo <= 0x3F
            && 0x20 <= base <= 0x7F,
    }
}

/// Cells that are all characters.
pub open spec fn all_printable(line: Seq<Cell>) -> bool {
    forall|k: int| 0 <= k < line.len() ==> printable(#[trigger] line[k])
}

proof fn lemma_repertoire_is_printable(c: char)
    ensures
        repertoire_608(c) matches Some(cell) ==> printable(cell),
{
}

proof fn lemma_spelled_is_printable(s: Seq<char>)
    ensures
        all_printable(spelled_608(s)),
    decreases s.len(),
{
    if s.len() > 0 {
        lemma_spelled_is_printable(s.drop_last());
        lemma_repertoire_is_printable(s.last());
    }
}

proof fn lemma_shown_is_printable(c: char)
    ensures
        all_printable(shown_608(c)),
{
    lemma_repertoire_is_printable(c);
    if let Some(s) = stand_in(c) {
        lemma_spelled_is_printable(s);
    }
}

spec fn items_printable(items: Seq<Item<Cell>>) -> bool {
    forall|k: int|
        0 <= k < items.len() ==> ((#[trigger] items[k]) matches Item::Cell(v) ==> printable(v))
}

proof fn lemma_items_are_printable(text: Seq<char>)
    ensures
        items_printable(items_608(text)),
    decreases text.len(),
{
    let shown = |c: char| shown_608(c);
    if text.len() > 0 {
        lemma_items_are_printable(text.drop_last());
        lemma_shown_is_printable(text.last());
        let head = text_items(text.drop_last(), shown);
        let all = text_items(text, shown);
        assert(items_608(text) == all);
        assert(items_608(text.drop_last()) == head);
        assert forall|k: int| 0 <= k < all.len() implies ((#[trigger] all[k]) matches Item::Cell(v)
            ==> printable(v)) by {
            if k < head.len() {
                assert(all[k] == head[k]);
            } else if text.last() != '\n' {
                assert(all[k] == Item::Cell(shown_608(text.last())[k - head.len()]));
            }
        }
    }
}

proof fn lemma_cells_are_printable(items: Seq<Item<Cell>>)
    requires
        items_printable(items),
    ensures
        all_printable(item_cells(items)),
    decreases items.len(),
{
    if items.len() > 0 {
        assert forall|k: int| 0 <= k < items.drop_last().len() implies ((
        #[trigger] items.drop_last()[k]) matches Item::Cell(v) ==> printable(v)) by {
            assert(items.drop_last()[k] == items[k]);
        }
        lemma_cells_are_printable(items.drop_last());
        let last = items[items.len() - 1];
        assert(last == items.last());
    }
}

proof fn lemma_joined_holds(lines: Seq<Seq<Cell>>, k: int, j: int)
    requires
        0 <= k < lines.len(),
        0 <= j < lines[k].len(),
    ensures
        joined(lines).contains(lines[k][j]),
    decreases lines.len(),
{
    let head = joined(lines.drop_last());
    if k == lines.len() - 1 {
        assert(joined(lines)[head.len() + j] == lines[k][j]);
    } else {
        lemma_joined_holds(lines.drop_last(), k, j);
        let i = choose|i: int| 0 <= i < head.len() && head[i] == lines[k][j];
        assert(joined(lines)[i] == head[i]);
    }
}

proof fn lemma_ink_holds(cells: Seq<Cell>, i: int, blank: Cell)
    requires
        0 <= i < cells.len(),
        cells[i] != blank,
    ensures
        ink(cells, blank).contains(cells[i]),
{
}

proof fn lemma_ink_kept(cells: Seq<Cell>, cell: Cell, blank: Cell)
    requires
        ink(cells, blank).contains(cell),
        all_printable(cells),
    ensures
        printable(cell),
    decreases cells.len(),
{
    reveal(Seq::filter);
    if cells.len() > 0 && cell != cells.last() {
        let rest = cells.drop_last();
        let i = choose|i: int| 0 <= i < ink(cells, blank).len() && ink(cells, blank)[i] == cell;
        assert(ink(rest, blank)[i] == cell);
        lemma_ink_kept(rest, cell, blank);
    }
}

/// The lines of a text hold characters, and none is empty.
pub proof fn lemma_lines_are_printable(text: Seq<char>)
    ensures
        forall|k: int|
            0 <= k < text_lines_608(text).len() ==> all_printable(#[trigger] text_lines_608(text)[k])
                && text_lines_608(text)[k].len() > 0,
{
    let blank = Cell::Basic(0x20);
    let items = items_608(text);
    let lines = text_lines_608(text);
    lemma_items_are_printable(text);
    lemma_cells_are_printable(items);
    law_wrapping_keeps_the_text(items, COLUMNS as nat, blank);
    law_wrapped_lines_are_tidy(items, COLUMNS as nat, blank);
    assert forall|k: int| 0 <= k < lines.len() implies all_printable(#[trigger] lines[k])
        && lines[k].len() > 0 by {
        let line = lines[k];
        assert forall|j: int| 0 <= j < line.len() implies printable(#[trigger] line[j]) by {
            if line[j] != blank {
                lemma_joined_holds(lines, k, j);
                let all = joined(lines);
                let cells = item_cells(items);
                let i = choose|i: int| 0 <= i < all.len() && all[i] == line[j];
                lemma_ink_holds(all, i, blank);
                lemma_ink_kept(cells, line[j], blank);
            }
        }
    }
}

/// The first byte of a pair is not that of the channel's mode codes.
spec fn apart(e: Encoder608, hi: u8) -> bool {
    hi & 0x7F != e.channel.misc()
}

proof fn lemma_apart(e: Encoder608, b: u8)
    requires
        b & 0x7F != e.channel.misc(),
    ensures
        apart(e, with_parity(b)),
{
    law_parity_is_odd(b);
}

/// A code that marks no border and leaves a pair that no mode code repeats.
spec fn quiet(e: Encoder608, code: Code) -> bool {
    match code {
        Code::Control { hi, lo, boundary } => !boundary && hi & 0x7F != e.channel.misc(),
        Code::Text { a, b } => a & 0x7F != e.channel.misc(),
    }
}

spec fn all_quiet(e: Encoder608, codes: Seq<Code>) -> bool {
    forall|k: int| 0 <= k < codes.len() ==> quiet(e, #[trigger] codes[k])
}

spec fn unmarked(code: Code) -> bool {
    code matches Code::Control { hi, lo, boundary } ==> !boundary
}

proof fn lemma_text_is_quiet(e: Encoder608, line: Seq<Cell>, pending: Option<u8>)
    requires
        all_printable(line),
        pending matches Some(p) ==> 0x20 <= p <= 0x7F,
    ensures
        all_quiet(e, text_codes(line, pending, e.channel.bit())),
        line.len() > 0 || pending is Some ==> text_codes(line, pending, e.channel.bit()).len() > 0,
    decreases line.len(),
{
    let bit = e.channel.bit();
    let misc = e.channel.misc();
    assert forall|b: u8| 0x20 <= b <= 0x7F implies #[trigger] (b & 0x7F) != misc by {
        assert(0x20 <= b <= 0x7F ==> b & 0x7F >= 0x20) by (bit_vector);
    }
    assert((0x11u8 | bit) & 0x7F != misc && (0x12u8 | bit) & 0x7F != misc && (0x13u8 | bit) & 0x7F
        != misc) by {
        assert((0x11u8 | 0u8) & 0x7F == 0x11 && (0x12u8 | 0u8) & 0x7F == 0x12 && (0x13u8 | 0u8)
            & 0x7F == 0x13 && (0x11u8 | 8u8) & 0x7F == 0x19 && (0x12u8 | 8u8) & 0x7F == 0x1A && (
        0x13u8 | 8u8) & 0x7F == 0x1B) by (bit_vector);
    }
    if line.len() > 0 {
        let rest = line.drop_first();
        assert forall|k: int| 0 <= k < rest.len() implies printable(#[trigger] rest[k]) by {
            assert(rest[k] == line[k + 1]);
        }
        assert(printable(line[0]));
        match line[0] {
            Cell::Basic(c) => match pending {
                Some(p) => {
                    lemma_text_is_quiet(e, rest, None);
                },
                None => {
                    lemma_text_is_quiet(e, rest, Some(c));
                },
            },
            _ => {
                lemma_text_is_quiet(e, rest, None);
            },
        }
    }
}

/// Queueing unmarked codes adds pairs without borders.
proof fn lemma_no_border(e: Encoder608, codes: Seq<Code>)
    requires
        forall|k: int| 0 <= k < codes.len() ==> unmarked(#[trigger] codes[k]),
    ensures
        ({
            let after = e.sent_all(codes);
            &&& e.queue.len() <= after.queue.len()
            &&& after.queue.take(e.queue.len() as int) == e.queue
            &&& forall|k: int|
                e.queue.len() <= k < after.queue.len() ==> !(#[trigger] after.queue[k]).boundary
        }),
    decreases codes.len(),
{
    if codes.len() == 0 {
        assert(e.queue.take(e.queue.len() as int) =~= e.queue);
    } else {
        reveal(Encoder608::sent);
        let next = e.sent(codes[0]);
        let rest = codes.drop_first();
        assert(unmarked(codes[0]));
        assert forall|k: int| 0 <= k < rest.len() implies unmarked(#[trigger] rest[k]) by {
            assert(rest[k] == codes[k + 1]);
        }
        lemma_no_border(next, rest);
        let after = e.sent_all(codes);
        let n = e.queue.len() as int;
        let m = next.queue.len() as int;
        assert(next.queue.take(n) =~= e.queue);
        assert(after.queue.take(n) =~= after.queue.take(m).take(n));
        assert forall|k: int| n <= k < after.queue.len() implies !(
        #[trigger] after.queue[k]).boundary by {
            if k < m {
                assert(after.queue[k] == after.queue.take(m)[k]);
                assert(!next.queue[k].boundary);
            }
        }
    }
}

/// What is queued last decides what the encoder holds for its last pair.
proof fn lemma_last_pair(e: Encoder608, codes: Seq<Code>)
    requires
        codes.len() > 0,
        quiet(e, codes.last()),
    ensures
        e.sent_all(codes).last matches Some(l) && apart(e, l.0),
    decreases codes.len(),
{
    reveal(Encoder608::sent);
    let next = e.sent(codes[0]);
    let rest = codes.drop_first();
    if rest.len() > 0 {
        assert(rest.last() == codes.last());
        lemma_last_pair(next, rest);
    } else {
        assert(next.sent_all(rest) == next);
        match codes[0] {
            Code::Control { hi, lo, boundary } => {
                lemma_apart(e, hi);
            },
            Code::Text { a, b } => {
                lemma_apart(e, a);
            },
        }
    }
}

/// The first code of a line goes out as it is, marked, and once more.
proof fn lemma_mode_sent(e: Encoder608, rows: u8)
    requires
        ready(e, rows),
    ensures
        ({
            let pair = mode_pair(e, rows);
            let after = e.sent(e.control_code((RU2 + rows - 2) as u8, true));
            &&& after.queue == e.queue + seq![pair, (Pair { boundary: false, ..pair })]
            &&& after.set_like(e)
        }),
{
    reveal(Encoder608::sent);
    assert(e.queue + Seq::<Pair>::empty() =~= e.queue);
}

proof fn lemma_misc_is_low(e: Encoder608)
    ensures
        e.channel.misc() & 0x7F == e.channel.misc(),
{
    assert(0x14u8 & 0x7F == 0x14 && 0x1Cu8 & 0x7F == 0x1C && 0x15u8 & 0x7F == 0x15 && 0x1Du8 & 0x7F
        == 0x1D) by (bit_vector);
}

/// One line: its first pair is a border, and no other.
proof fn lemma_line(e: Encoder608, rows: u8, line: Seq<Cell>)
    requires
        ready(e, rows),
        2 <= rows <= 4,
        all_printable(line),
        line.len() > 0,
    ensures
        ({
            let after = e.sent_all(line_codes(e, rows, line));
            let n = e.queue.len() as int;
            &&& n < after.queue.len()
            &&& after.queue.take(n) == e.queue
            &&& after.queue[n].boundary
            &&& forall|k: int| n < k < after.queue.len() ==> !(#[trigger] after.queue[k]).boundary
            &&& ready(after, rows)
            &&& after.set_like(e)
        }),
{
    let lo = (RU2 + rows - 2) as u8;
    let mode = e.control_code(lo, true);
    let text = text_codes(line, None, e.channel.bit());
    let rest = seq![e.control_code(CR, false), e.row_start(e.base_row as int)] + text;
    let all = line_codes(e, rows, line);
    assert(all =~= seq![mode] + rest);
    assert(all.drop_first() =~= rest);
    lemma_text_is_quiet(e, line, None);
    assert(text.len() > 0);
    assert(rest.last() == text.last());
    assert(quiet(e, text[text.len() - 1]));
    assert forall|k: int| 0 <= k < rest.len() implies unmarked(#[trigger] rest[k]) by {
        if k >= 2 {
            assert(rest[k] == text[k - 2]);
            assert(quiet(e, text[k - 2]));
        }
    }
    let one = e.sent(mode);
    lemma_mode_sent(e, rows);
    law_parity_is_odd(e.channel.misc());
    lemma_misc_is_low(e);
    lemma_no_border(one, rest);
    lemma_last_pair(one, rest);
    let after = e.sent_all(all);
    assert(after == one.sent_all(rest));
    lemma_sent_all_keeps(e, all);
    let n = e.queue.len() as int;
    assert(one.queue.take(n) =~= e.queue);
    assert(after.queue.take(n) =~= after.queue.take(n + 2).take(n));
    assert(after.queue[n] == after.queue.take(n + 2)[n]);
    assert(after.queue[n + 1] == after.queue.take(n + 2)[n + 1]);
}

proof fn lemma_roll_up_same(a: Encoder608, b: Encoder608, rows: u8, lines: Seq<Seq<Cell>>)
    requires
        a.set_like(b),
    ensures
        a.roll_up_codes(rows, lines) == b.roll_up_codes(rows, lines),
    decreases lines.len(),
{
    if lines.len() > 0 {
        lemma_roll_up_same(a, b, rows, lines.drop_first());
    }
}

proof fn lemma_lines(e: Encoder608, rows: u8, lines: Seq<Seq<Cell>>)
    requires
        ready(e, rows),
        2 <= rows <= 4,
        forall|k: int|
            0 <= k < lines.len() ==> all_printable(#[trigger] lines[k]) && lines[k].len() > 0,
    ensures
        ({
            let after = e.sent_all(e.roll_up_codes(rows, lines));
            let starts = line_starts(e, rows, lines);
            let n = e.queue.len() as int;
            &&& n <= after.queue.len()
            &&& after.queue.take(n) == e.queue
            &&& ready(after, rows)
            &&& starts.len() == lines.len()
            &&& forall|k: int|
                0 <= k < starts.len() ==> n <= (#[trigger] starts[k]) < after.queue.len()
            &&& forall|i: int, j: int|
                #![trigger starts[i], starts[j]]
                0 <= i < j < starts.len() ==> starts[i] < starts[j]
            &&& forall|k: int|
                n <= k < after.queue.len() ==> ((#[trigger] after.queue[k]).boundary
                    <==> starts.contains(k))
        }),
    decreases lines.len(),
{
    let n = e.queue.len() as int;
    if lines.len() == 0 {
        assert(e.queue.take(n) =~= e.queue);
    } else {
        let first = line_codes(e, rows, lines[0]);
        let rest = lines.drop_first();
        let next = e.sent_all(first);
        lemma_line(e, rows, lines[0]);
        assert forall|k: int| 0 <= k < rest.len() implies all_printable(#[trigger] rest[k])
            && rest[k].len() > 0 by {
            assert(rest[k] == lines[k + 1]);
        }
        lemma_lines(next, rows, rest);
        lemma_roll_up_same(next, e, rows, rest);
        lemma_sent_all_concat(e, first, e.roll_up_codes(rows, rest));
        let after = e.sent_all(e.roll_up_codes(rows, lines));
        assert(e.roll_up_codes(rows, lines) =~= first + e.roll_up_codes(rows, rest));
        assert(after == next.sent_all(next.roll_up_codes(rows, rest)));
        let m = next.queue.len() as int;
        let behind = line_starts(next, rows, rest);
        let starts = line_starts(e, rows, lines);
        assert(starts =~= seq![n] + behind);
        assert(after.queue.take(n) =~= after.queue.take(m).take(n));
        assert forall|k: int| n <= k < after.queue.len() implies ((
        #[trigger] after.queue[k]).boundary <==> starts.contains(k)) by {
            if k < m {
                assert(after.queue[k] == after.queue.take(m)[k]);
                assert(after.queue[k] == next.queue[k]);
                if k == n {
                    assert(starts[0] == k);
                } else if starts.contains(k) {
                    let i = choose|i: int| 0 <= i < starts.len() && starts[i] == k;
                    assert(i > 0);
                    assert(behind[i - 1] == k);
                }
            } else {
                if behind.contains(k) {
                    let i = choose|i: int| 0 <= i < behind.len() && behind[i] == k;
                    assert(starts[i + 1] == k);
                }
                if starts.contains(k) {
                    let i = choose|i: int| 0 <= i < starts.len() && starts[i] == k;
                    assert(i > 0);
                    assert(behind[i - 1] == k);
                }
            }
        }
        assert forall|i: int, j: int|
            #![trigger starts[i], starts[j]]
            0 <= i < j < starts.len() implies starts[i] < starts[j] by {
            assert(starts[j] == behind[j - 1]);
            if i > 0 {
                assert(starts[i] == behind[i - 1]);
            }
        }
        assert forall|k: int| 0 <= k < starts.len() implies n <= (#[trigger] starts[k])
            < after.queue.len() by {
            if k > 0 {
                assert(starts[k] == behind[k - 1]);
            }
        }
    }
}

/// While a roll-up encoder is drained of a text of which nothing was dropped, it
/// stands at a border exactly before the first pair of each wrapped line, and
/// again when everything is sent. What waited before goes out first, unchanged.
pub proof fn law_borders_are_line_starts(e: Encoder608, text: Seq<char>, rows: u8)
    requires
        e.wf(),
        e.mode == Mode608::RollUp(rows),
        ready(e, rows),
        cut_point(e.sent_all(e.roll_up_codes(rows, text_lines_608(text))).queue) == 0,
    ensures
        ({
            let queue = e.captioned(text).queue;
            let before = e.queue.len() as int;
            let starts = line_starts(e, rows, text_lines_608(text));
            &&& before <= queue.len()
            &&& queue.take(before) == e.queue
            &&& starts.len() == text_lines_608(text).len()
            &&& starts.len() > 0 ==> starts[0] == before
            &&& forall|i: int, j: int|
                #![trigger starts[i], starts[j]]
                0 <= i < j < starts.len() ==> starts[i] < starts[j]
            &&& forall|k: int|
                0 <= k < starts.len() ==> before <= (#[trigger] starts[k]) < queue.len()
            &&& forall|sent: int|
                before <= sent <= queue.len() ==> (at_border(#[trigger] queue.skip(sent)) <==> sent
                    == queue.len() || starts.contains(sent))
            &&& ready(e.captioned(text), rows)
        }),
{
    let lines = text_lines_608(text);
    lemma_lines_are_printable(text);
    lemma_lines(e, rows, lines);
    let full = e.sent_all(e.roll_up_codes(rows, lines));
    let queue = e.captioned(text).queue;
    if lines.len() > 0 {
        assert(full.queue.skip(0) =~= full.queue);
    } else {
        assert(e.roll_up_codes(rows, lines).len() == 0);
    }
    assert(queue == full.queue);
    let before = e.queue.len() as int;
    assert forall|sent: int| before <= sent <= queue.len() implies (at_border(
        #[trigger] queue.skip(sent),
    ) <==> sent == queue.len() || line_starts(e, rows, lines).contains(sent)) by {
        if sent < queue.len() {
            assert(queue.skip(sent)[0] == queue[sent]);
        }
    }
}

/// A step of an encoder's life: a text goes in, or a pair goes out.
pub enum Step608 {
    Text { text: Seq<char> },
    Pair,
}

impl Step608 {
    /// The encoder behind the step.
    pub open spec fn made(self, e: Encoder608) -> Encoder608 {
        match self {
            Step608::Text { text } => e.captioned(text),
            Step608::Pair => if e.queue.len() == 0 {
                e
            } else {
                Encoder608 { queue: e.queue.drop_first(), ..e }
            },
        }
    }
}

/// The encoder behind steps, one after the other.
pub open spec fn run_608(e: Encoder608, steps: Seq<Step608>) -> Encoder608
    decreases steps.len(),
{
    if steps.len() == 0 {
        e
    } else {
        steps.last().made(run_608(e, steps.drop_last()))
    }
}

/// Both bytes have an odd number of ones.
pub open spec fn odd_pair(p: Pair) -> bool {
    ones(p.hi) % 2 == 1 && ones(p.lo) % 2 == 1
}

proof fn lemma_sent_is_odd(e: Encoder608, codes: Seq<Code>)
    requires
        e.wf(),
    ensures
        e.sent_all(codes).wf(),
        e.sent_all(codes).dropped == e.dropped,
    decreases codes.len(),
{
    if codes.len() > 0 {
        reveal(Encoder608::sent);
        let next = e.sent(codes[0]);
        match codes[0] {
            Code::Control { hi, lo, boundary } => {
                law_parity_is_odd(hi);
                law_parity_is_odd(lo);
            },
            Code::Text { a, b } => {
                law_parity_is_odd(a);
                law_parity_is_odd(b);
            },
        }
        law_parity_is_odd(e.channel.misc());
        law_parity_is_odd(DER);
        assert(next.wf());
        lemma_sent_is_odd(next, codes.drop_first());
    }
}

proof fn lemma_captioned_stays_sound(e: Encoder608, text: Seq<char>)
    requires
        e.wf(),
        e.queue.len() <= MAX_QUEUE_PAIRS,
    ensures
        e.captioned(text).wf(),
        e.captioned(text).queue.len() <= MAX_QUEUE_PAIRS,
{
    let full = e.sent_all(e.caption_codes(text_lines_608(text)));
    lemma_sent_is_odd(e, e.caption_codes(text_lines_608(text)));
    law_trimmed_at_a_line(full);
}

proof fn lemma_run_stays_sound(e: Encoder608, steps: Seq<Step608>)
    requires
        e.wf(),
        e.queue.len() <= MAX_QUEUE_PAIRS,
    ensures
        run_608(e, steps).wf(),
        run_608(e, steps).queue.len() <= MAX_QUEUE_PAIRS,
    decreases steps.len(),
{
    if steps.len() > 0 {
        lemma_run_stays_sound(e, steps.drop_last());
        if let Step608::Text { text } = steps.last() {
            lemma_captioned_stays_sound(run_608(e, steps.drop_last()), text);
        }
    }
}

/// Whatever texts went in and whatever pairs went out, one more text leaves at
/// most [`MAX_QUEUE_PAIRS`] pairs waiting, all of odd parity. A text without a
/// line changes nothing. The dropped pairs are counted, and where any were
/// dropped the rest starts with a line; up to where the counter starts over it
/// does not go back.
pub proof fn law_a_run_of_captions(e: Encoder608, steps: Seq<Step608>, text: Seq<char>)
    requires
        e.wf(),
        e.queue.len() <= 900,
    ensures
        ({
            let before = run_608(e, steps);
            let after = before.captioned(text);
            let full = before.sent_all(before.caption_codes(text_lines_608(text)));
            let lost = full.queue.len() - after.queue.len();
            &&& after.wf()
            &&& after.queue.len() <= 900
            &&& forall|k: int| 0 <= k < after.queue.len() ==> odd_pair(#[trigger] after.queue[k])
            &&& text_lines_608(text).len() == 0 ==> after == before
            &&& text_lines_608(text).len() > 0 ==> {
                &&& 0 <= lost
                &&& after.dropped == counted(before.dropped, lost as nat)
                &&& after.queue == full.queue.skip(lost)
                &&& lost > 0 ==> at_border(after.queue)
                &&& before.dropped + lost <= u64::MAX ==> after.dropped == before.dropped + lost
            }
            &&& after.dropped != before.dropped ==> at_border(after.queue)
        }),
{
    let before = run_608(e, steps);
    let full = before.sent_all(before.caption_codes(text_lines_608(text)));
    lemma_run_stays_sound(e, steps);
    lemma_captioned_stays_sound(before, text);
    lemma_sent_is_odd(before, before.caption_codes(text_lines_608(text)));
    law_trimmed_at_a_line(full);
}

/// A control code goes out twice in a row, and a receiver can tell it from the
/// one before it: where that was the same, a pair of codes without effect comes
/// between. Characters go out once. Nothing that waited changes.
pub proof fn law_control_codes_are_doubled(e: Encoder608, hi: u8, lo: u8, boundary: bool)
    ensures
        ({
            let after = e.sent(Code::Control { hi, lo, boundary });
            let q = after.queue;
            let n = e.queue.len() as int;
            let m = q.len() as int;
            let same = e.last == Some((q[m - 2].hi, q[m - 2].lo));
            let idle: int = match e.channel {
                Channel::Cc1 => 0x14,
                Channel::Cc2 => 0x1C,
                Channel::Cc3 => 0x15,
                Channel::Cc4 => 0x1D,
            };
            &&& q.take(n) == e.queue
            &&& m == n + (if same {
                4int
            } else {
                2
            })
            &&& q[m - 2].hi % 128 == hi % 128 && q[m - 2].lo % 128 == lo % 128
            &&& q[m - 1].hi == q[m - 2].hi && q[m - 1].lo == q[m - 2].lo
            &&& q[m - 2].boundary == boundary && !q[m - 1].boundary
            &&& same ==> q[n].hi % 128 == idle && q[n].lo % 128 == 0x24 && q[n + 1] == q[n]
                && !q[n].boundary
            &&& after.last == Some((q[m - 1].hi, q[m - 1].lo))
        }),
        ({
            let after = e.sent(Code::Text { a: hi, b: lo });
            let n = e.queue.len() as int;
            &&& after.queue.len() == n + 1
            &&& after.queue.take(n) == e.queue
            &&& after.queue[n].hi % 128 == hi % 128 && after.queue[n].lo % 128 == lo % 128
            &&& !after.queue[n].boundary
        }),
{
    reveal(Encoder608::sent);
    let q = e.sent(Code::Control { hi, lo, boundary }).queue;
    assert(q.take(e.queue.len() as int) =~= e.queue);
    let t = e.sent(Code::Text { a: hi, b: lo }).queue;
    assert(t.take(e.queue.len() as int) =~= e.queue);
    lemma_seven_bits(hi);
    lemma_seven_bits(lo);
    lemma_seven_bits(0x24);
    lemma_seven_bits(e.channel.misc());
}

proof fn lemma_seven_bits(b: u8)
    ensures
        with_parity(b) % 128 == b % 128,
{
    law_parity_is_odd(b);
    let p = with_parity(b);
    assert(p & 0x7F == b & 0x7F ==> p % 128 == b % 128) by (bit_vector);
}

/// Captions are wrapped at 32 columns.
pub proof fn law_lines_fit_the_screen(text: Seq<char>)
    ensures
        text_lines_608(text) == wrapped(items_608(text), 32, Cell::Basic(0x20)),
        forall|k: int|
            0 <= k < text_lines_608(text).len() ==> 0 < (#[trigger] text_lines_608(text)[k]).len()
                <= 32,
{
    law_wrapped_lines_are_tidy(items_608(text), 32, Cell::Basic(0x20));
    let lines = text_lines_608(text);
    assert forall|k: int| 0 <= k < lines.len() implies 0 < (#[trigger] lines[k]).len() <= 32 by {
        assert(tidy(lines[k], 32, Cell::Basic(0x20)));
    }
}

/// Up to 900 pairs wait without loss, and never more. Pairs are dropped from the
/// front up to the first line that lets the rest fit.
pub proof fn law_pairs_are_bounded(e: Encoder608)
    ensures
        e.queue.len() <= 900 ==> e.trimmed().queue == e.queue && e.trimmed().dropped == e.dropped,
        e.queue.len() > 900 ==> {
            let left = e.trimmed();
            let n = e.queue.len() - left.queue.len();
            &&& left.queue.len() <= 900
            &&& left.queue == e.queue.skip(n)
            &&& left.queue.len() > 0 ==> left.queue[0].boundary
            &&& e.dropped + n <= u64::MAX ==> left.dropped == e.dropped + n
            &&& forall|k: int|
                0 < k < n && e.queue.len() - k <= 900 ==> !(#[trigger] e.queue[k]).boundary
        },
{
    law_trimmed_at_a_line(e);
    if e.queue.len() > 900 {
        lemma_cut_is_least(e.queue, 1);
    }
}

proof fn lemma_cut_is_least(queue: Seq<Pair>, from: int)
    requires
        0 <= from <= queue.len(),
    ensures
        forall|k: int|
            from <= k < next_cut(queue, from) && queue.len() - k <= 900 ==> !(
            #[trigger] queue[k]).boundary,
    decreases queue.len() - from,
{
    if from < queue.len() && !(queue[from].boundary && queue.len() - from <= 900) {
        lemma_cut_is_least(queue, from + 1);
    }
}

} // verus!
