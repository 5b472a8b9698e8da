//! What word wrapping promises of every text.
use vstd::prelude::*;

use crate::text::{filled, flowed, paragraphs, text_items, words, wrapped, Item};

verus! {

/// A line worth sending: neither empty nor wider than `width`, without a blank
/// at either end or two in a row.
pub open spec fn tidy<V>(line: Seq<V>, width: nat, blank: V) -> bool {
    &&& 0 < line.len() <= width
    &&& line.first() != blank
    &&& line.last() != blank
    &&& forall|j: int|
        #![trigger line[j]]
        0 < j < line.len() && line[j] == blank ==> line[j - 1] != blank
}

/// Lines that are all worth sending.
pub open spec fn all_tidy<V>(lines: Seq<Seq<V>>, width: nat, blank: V) -> bool {
    forall|k: int| #![trigger lines[k]] 0 <= k < lines.len() ==> tidy(lines[k], width, blank)
}

/// The cells of a list of lines, in order.
pub open spec fn joined<V>(lines: Seq<Seq<V>>) -> Seq<V>
    decreases lines.len(),
{
    if lines.len() == 0 {
        seq![]
    } else {
        joined(lines.drop_last()) + lines.last()
    }
}

/// The cells among a list of items, in order.
pub open spec fn item_cells<V>(items: Seq<Item<V>>) -> Seq<V>
    decreases items.len(),
{
    if items.len() == 0 {
        seq![]
    } else {
        let head = item_cells(items.drop_last());
        match items.last() {
            Item::Cell(v) => head.push(v),
            Item::Break => head,
        }
    }
}

/// A run of cells without its blanks.
pub open spec fn ink<V>(cells: Seq<V>, blank: V) -> Seq<V> {
    cells.filter(|v: V| v != blank)
}

spec fn solid<V>(word: Seq<V>, blank: V) -> bool {
    &&& word.len() > 0
    &&& forall|j: int| #![trigger word[j]] 0 <= j < word.len() ==> word[j] != blank
}

proof fn lemma_words_solid<V>(cells: Seq<V>, blank: V)
    ensures
        forall|k: int|
            #![trigger words(cells, blank)[k]]
            0 <= k < words(cells, blank).len() ==> solid(words(cells, blank)[k], blank),
        cells.len() > 0 && cells.last() != blank ==> words(cells, blank).len() > 0,
    decreases cells.len(),
{
    if cells.len() > 0 {
        let rest = cells.drop_last();
        let head = words(rest, blank);
        lemma_words_solid(rest, blank);
        if cells.last() != blank && rest.len() > 0 && rest.last() != blank {
            assert(solid(head.last(), blank));
            assert(solid(head.last().push(cells.last()), blank));
        }
    }
}

proof fn lemma_tidy_concat<V>(a: Seq<Seq<V>>, b: Seq<Seq<V>>, width: nat, blank: V)
    requires
        all_tidy(a, width, blank),
        all_tidy(b, width, blank),
    ensures
        all_tidy(a + b, width, blank),
{
    assert forall|k: int| #![trigger (a + b)[k]] 0 <= k < (a + b).len() implies tidy(
        (a + b)[k],
        width,
        blank,
    ) by {
        if k >= a.len() {
            assert((a + b)[k] == b[k - a.len()]);
        } else {
            assert((a + b)[k] == a[k]);
        }
    }
}

proof fn lemma_filled_tidy<V>(list: Seq<Seq<V>>, line: Seq<V>, width: nat, blank: V)
    requires
        width > 0,
        forall|k: int| #![trigger list[k]] 0 <= k < list.len() ==> solid(list[k], blank),
        line.len() > 0 ==> tidy(line, width, blank),
    ensures
        all_tidy(filled(list, line, width, blank), width, blank),
    decreases list.len(), (if list.len() > 0 { list[0].len() } else { 0 }), line.len(),
{
    if list.len() > 0 {
        let word = list[0];
        let rest = list.drop_first();
        assert(solid(word, blank));
        if line.len() > 0 {
            if line.len() + 1 + word.len() > width {
                lemma_filled_tidy(list, seq![], width, blank);
                lemma_tidy_concat(
                    seq![line],
                    filled(list, seq![], width, blank),
                    width,
                    blank,
                );
            } else {
                let longer = line.push(blank) + word;
                assert(longer.first() == line.first());
                assert(longer.last() == word.last());
                assert forall|j: int|
                    #![trigger longer[j]]
                    0 < j < longer.len() && longer[j] == blank implies longer[j - 1] != blank by {
                    if j < line.len() {
                        assert(longer[j] == line[j]);
                        assert(longer[j - 1] == line[j - 1]);
                    } else if j == line.len() {
                        assert(longer[j - 1] == line.last());
                    } else {
                        assert(longer[j] == word[j - line.len() - 1]);
                    }
                }
                lemma_filled_tidy(rest, longer, width, blank);
            }
        } else if word.len() > width {
            let cut = word.take(width as int);
            assert forall|j: int| #![trigger cut[j]] 0 <= j < cut.len() implies cut[j] != blank by {
                assert(cut[j] == word[j]);
            }
            assert(tidy(cut, width, blank));
            let tail = word.skip(width as int);
            let pending = seq![tail] + rest;
            assert(solid(tail, blank)) by {
                assert forall|j: int| #![trigger tail[j]] 0 <= j < tail.len() implies tail[j]
                    != blank by {
                    assert(tail[j] == word[j + width]);
                }
            }
            assert forall|k: int| #![trigger pending[k]] 0 <= k < pending.len() implies solid(
                pending[k],
                blank,
            ) by {
                if k > 0 {
                    assert(pending[k] == list[k]);
                }
            }
            lemma_filled_tidy(pending, seq![], width, blank);
            lemma_tidy_concat(seq![cut], filled(pending, seq![], width, blank), width, blank);
        } else {
            assert(tidy(word, width, blank));
            lemma_filled_tidy(rest, word, width, blank);
        }
    }
}

proof fn lemma_flowed_tidy<V>(paras: Seq<Seq<V>>, width: nat, blank: V)
    requires
        width > 0,
    ensures
        all_tidy(flowed(paras, width, blank), width, blank),
    decreases paras.len(),
{
    if paras.len() > 0 {
        lemma_flowed_tidy(paras.drop_last(), width, blank);
        lemma_words_solid(paras.last(), blank);
        let list = words(paras.last(), blank);
        lemma_filled_tidy(list, seq![], width, blank);
        lemma_tidy_concat(
            flowed(paras.drop_last(), width, blank),
            filled(list, seq![], width, blank),
            width,
            blank,
        );
    }
}

/// Every wrapped line is tidy: at most `width` cells (one where `width` is
/// zero), never empty, no blank at its ends, and runs of blanks collapsed.
pub proof fn law_wrapped_lines_are_tidy<V>(items: Seq<Item<V>>, width: nat, blank: V)
    ensures
        all_tidy(wrapped(items, width, blank), if width == 0 { 1 } else { width }, blank),
{
    lemma_flowed_tidy(paragraphs(items), if width == 0 { 1 } else { width }, blank);
}

proof fn lemma_joined_concat<V>(a: Seq<Seq<V>>, b: Seq<Seq<V>>)
    ensures
        joined(a + b) == joined(a) + joined(b),
    decreases b.len(),
{
    if b.len() == 0 {
        assert(a + b == a);
        assert(joined(a) + joined(b) == joined(a));
    } else {
        lemma_joined_concat(a, b.drop_last());
        assert((a + b).drop_last() == a + b.drop_last());
        assert(joined(a) + joined(b.drop_last()) + b.last() == joined(a) + (joined(b.drop_last())
            + b.last()));
    }
}

proof fn lemma_joined_single<V>(line: Seq<V>)
    ensures
        joined(seq![line]) == line,
{
    assert(seq![line].drop_last() == Seq::<Seq<V>>::empty());
    assert(joined(Seq::<Seq<V>>::empty()) + line == line);
}

proof fn lemma_ink_concat<V>(a: Seq<V>, b: Seq<V>, blank: V)
    ensures
        ink(a + b, blank) == ink(a, blank) + ink(b, blank),
{
    Seq::filter_distributes_over_add(a, b, |v: V| v != blank);
}

proof fn lemma_ink_push<V>(a: Seq<V>, v: V, blank: V)
    ensures
        ink(a.push(v), blank) == (if v == blank { ink(a, blank) } else { ink(a, blank).push(v) }),
{
    reveal(Seq::filter);
    assert(a.push(v).drop_last() == a);
}

proof fn lemma_ink_twice<V>(a: Seq<V>, blank: V)
    ensures
        ink(ink(a, blank), blank) == ink(a, blank),
    decreases a.len(),
{
    if a.len() == 0 {
        assert(a == Seq::<V>::empty());
        reveal(Seq::filter);
    } else {
        let rest = a.drop_last();
        lemma_ink_twice(rest, blank);
        assert(rest.push(a.last()) == a);
        lemma_ink_push(rest, a.last(), blank);
        if a.last() != blank {
            lemma_ink_push(ink(rest, blank), a.last(), blank);
        }
    }
}

proof fn lemma_filled_keeps<V>(list: Seq<Seq<V>>, line: Seq<V>, width: nat, blank: V)
    requires
        width > 0,
    ensures
        ink(joined(filled(list, line, width, blank)), blank) == ink(line, blank) + ink(
            joined(list),
            blank,
        ),
    decreases list.len(), (if list.len() > 0 { list[0].len() } else { 0 }), line.len(),
{
    if list.len() == 0 {
        if line.len() > 0 {
            lemma_joined_single(line);
        } else {
            assert(line == Seq::<V>::empty());
        }
        assert(joined(list) == Seq::<V>::empty());
        lemma_ink_concat(line, Seq::<V>::empty(), blank);
        assert(line + Seq::<V>::empty() == line);
    } else {
        let word = list[0];
        let rest = list.drop_first();
        assert(list == seq![word] + rest);
        lemma_joined_concat(seq![word], rest);
        lemma_joined_single(word);
        lemma_ink_concat(word, joined(rest), blank);
        let words_ink = ink(word, blank) + ink(joined(rest), blank);
        assert(ink(joined(list), blank) == words_ink);
        if line.len() > 0 {
            if line.len() + 1 + word.len() > width {
                let after = filled(list, seq![], width, blank);
                lemma_filled_keeps(list, seq![], width, blank);
                lemma_joined_concat(seq![line], after);
                lemma_joined_single(line);
                lemma_ink_concat(line, joined(after), blank);
                lemma_ink_concat(Seq::<V>::empty(), joined(list), blank);
                assert(Seq::<V>::empty() + joined(list) == joined(list));
            } else {
                let longer = line.push(blank) + word;
                lemma_filled_keeps(rest, longer, width, blank);
                lemma_ink_concat(line.push(blank), word, blank);
                lemma_ink_push(line, blank, blank);
                assert(ink(line, blank) + ink(word, blank) + ink(joined(rest), blank) == ink(
                    line,
                    blank,
                ) + words_ink);
            }
        } else {
            assert(line == Seq::<V>::empty());
            lemma_ink_concat(Seq::<V>::empty(), joined(list), blank);
            assert(Seq::<V>::empty() + joined(list) == joined(list));
            if word.len() > width {
                let cut = word.take(width as int);
                let tail = word.skip(width as int);
                let pending = seq![tail] + rest;
                let after = filled(pending, seq![], width, blank);
                lemma_filled_keeps(pending, seq![], width, blank);
                lemma_joined_concat(seq![tail], rest);
                lemma_joined_single(tail);
                lemma_joined_concat(seq![cut], after);
                lemma_joined_single(cut);
                lemma_ink_concat(cut, joined(after), blank);
                assert(Seq::<V>::empty() + joined(pending) == joined(pending));
                lemma_ink_concat(Seq::<V>::empty(), joined(pending), blank);
                lemma_ink_concat(cut, joined(pending), blank);
                assert(cut + joined(pending) == joined(list)) by {
                    assert(cut + tail == word);
                    assert(cut + (tail + joined(rest)) == cut + tail + joined(rest));
                }
            } else {
                lemma_filled_keeps(rest, word, width, blank);
            }
        }
    }
}

proof fn lemma_words_keep<V>(cells: Seq<V>, blank: V)
    ensures
        joined(words(cells, blank)) == ink(cells, blank),
    decreases cells.len(),
{
    if cells.len() == 0 {
        assert(cells == Seq::<V>::empty());
        reveal(Seq::filter);
    } else {
        let rest = cells.drop_last();
        let head = words(rest, blank);
        lemma_words_keep(rest, blank);
        lemma_words_solid(rest, blank);
        lemma_ink_push(rest, cells.last(), blank);
        assert(rest.push(cells.last()) == cells);
        if cells.last() != blank {
            if rest.len() > 0 && rest.last() != blank {
                let longer = head.last().push(cells.last());
                let list = head.update(head.len() - 1, longer);
                assert(list.drop_last() == head.drop_last());
                assert(joined(head.drop_last()) + longer == (joined(head.drop_last())
                    + head.last()).push(cells.last()));
            } else {
                let list = head.push(seq![cells.last()]);
                assert(list.drop_last() == head);
                assert(joined(head) + seq![cells.last()] == joined(head).push(cells.last()));
            }
        }
    }
}

proof fn lemma_flowed_keeps<V>(paras: Seq<Seq<V>>, width: nat, blank: V)
    requires
        width > 0,
    ensures
        ink(joined(flowed(paras, width, blank)), blank) == ink(joined(paras), blank),
    decreases paras.len(),
{
    if paras.len() > 0 {
        let head = flowed(paras.drop_last(), width, blank);
        let list = words(paras.last(), blank);
        let tail = filled(list, seq![], width, blank);
        lemma_flowed_keeps(paras.drop_last(), width, blank);
        lemma_filled_keeps(list, seq![], width, blank);
        lemma_words_keep(paras.last(), blank);
        lemma_joined_concat(head, tail);
        lemma_ink_concat(joined(head), joined(tail), blank);
        lemma_ink_concat(joined(paras.drop_last()), paras.last(), blank);
        lemma_ink_concat(Seq::<V>::empty(), joined(list), blank);
        assert(Seq::<V>::empty() + joined(list) == joined(list));
        lemma_ink_twice(paras.last(), blank);
    }
}

proof fn lemma_paragraphs_keep<V>(items: Seq<Item<V>>)
    ensures
        joined(paragraphs(items)) == item_cells(items),
        paragraphs(items).len() > 0,
    decreases items.len(),
{
    if items.len() == 0 {
        lemma_joined_single(Seq::<V>::empty());
    } else {
        let head = paragraphs(items.drop_last());
        lemma_paragraphs_keep(items.drop_last());
        match items.last() {
            Item::Cell(v) => {
                let list = head.update(head.len() - 1, head.last().push(v));
                assert(list.drop_last() == head.drop_last());
                assert(joined(head.drop_last()) + head.last().push(v) == (joined(head.drop_last())
                    + head.last()).push(v));
            },
            Item::Break => {
                let list = head.push(seq![]);
                assert(list.drop_last() == head);
                assert(joined(head) + Seq::<V>::empty() == joined(head));
            },
        }
    }
}

/// Wrapping loses and reorders nothing but blanks: the lines show, one after the
/// other, exactly the cells that are no blanks.
pub proof fn law_wrapping_keeps_the_text<V>(items: Seq<Item<V>>, width: nat, blank: V)
    ensures
        ink(joined(wrapped(items, width, blank)), blank) == ink(item_cells(items), blank),
{
    lemma_paragraphs_keep(items);
    lemma_flowed_keeps(paragraphs(items), if width == 0 { 1 } else { width }, blank);
}

/// How far the first word of a line reaches.
pub open spec fn lead_len<V>(line: Seq<V>, blank: V) -> nat
    decreases line.len(),
{
    if line.len() == 0 || line[0] == blank {
        0
    } else {
        1 + lead_len(line.drop_first(), blank)
    }
}

/// No line could have taken the first word of the next.
pub open spec fn no_room_left<V>(lines: Seq<Seq<V>>, width: nat, blank: V) -> bool {
    forall|i: int|
        0 <= i && i + 1 < lines.len() ==> (#[trigger] lines[i]).len() + 1 + lead_len(
            lines[i + 1],
            blank,
        ) > width
}

proof fn lemma_lead_len<V>(word: Seq<V>, rest: Seq<V>, blank: V)
    requires
        forall|j: int| 0 <= j < word.len() ==> #[trigger] word[j] != blank,
    ensures
        lead_len(word + rest, blank) >= word.len(),
    decreases word.len(),
{
    if word.len() > 0 {
        let less = word.drop_first();
        assert forall|j: int| 0 <= j < less.len() implies #[trigger] less[j] != blank by {
            assert(less[j] == word[j + 1]);
        }
        lemma_lead_len(less, rest, blank);
        assert((word + rest).drop_first() =~= less + rest);
        assert((word + rest)[0] == word[0]);
    }
}

/// Words that are all solid.
spec fn all_solid<V>(list: Seq<Seq<V>>, blank: V) -> bool {
    forall|k: int| 0 <= k < list.len() ==> solid(#[trigger] list[k], blank)
}

/// Filling goes on where the line stands, and leaves no room.
proof fn lemma_filled_is_full<V>(list: Seq<Seq<V>>, line: Seq<V>, width: nat, blank: V)
    requires
        width > 0,
        all_solid(list, blank),
        line.len() <= width,
    ensures
        ({
            let lines = filled(list, line, width, blank);
            &&& no_room_left(lines, width, blank)
            &&& line.len() > 0 ==> lines.len() > 0 && lines[0].len() >= line.len()
                && lines[0].take(line.len() as int) == line
            &&& line.len() == 0 && list.len() > 0 ==> lines.len() > 0 && lead_len(lines[0], blank)
                >= (if list[0].len() < width {
                list[0].len()
            } else {
                width
            })
        }),
    decreases list.len(), (if list.len() > 0 { list[0].len() } else { 0 }), line.len(),
{
    let lines = filled(list, line, width, blank);
    if list.len() == 0 {
        if line.len() > 0 {
            assert(line.take(line.len() as int) =~= line);
        }
    } else {
        let word = list[0];
        let rest = list.drop_first();
        assert(solid(word, blank));
        assert forall|k: int| 0 <= k < rest.len() implies solid(#[trigger] rest[k], blank) by {
            assert(rest[k] == list[k + 1]);
        }
        if line.len() > 0 {
            if line.len() + 1 + word.len() > width {
                lemma_filled_is_full(list, seq![], width, blank);
                let more = filled(list, seq![], width, blank);
                assert(lines =~= seq![line] + more);
                assert forall|i: int| 0 <= i && i + 1 < lines.len() implies (
                #[trigger] lines[i]).len() + 1 + lead_len(lines[i + 1], blank) > width by {
                    if i == 0 {
                        assert(lines[1] == more[0]);
                    } else {
                        assert(lines[i] == more[i - 1] && lines[i + 1] == more[i]);
                    }
                }
                assert(line.take(line.len() as int) =~= line);
            } else {
                let longer = line.push(blank) + word;
                lemma_filled_is_full(rest, longer, width, blank);
                assert(lines[0].take(line.len() as int) =~= longer.take(line.len() as int)) by {
                    assert(lines[0].take(longer.len() as int).take(line.len() as int)
                        =~= lines[0].take(line.len() as int));
                }
                assert(longer.take(line.len() as int) =~= line);
            }
        } else if word.len() > width {
            let cut = word.take(width as int);
            let left = seq![word.skip(width as int)] + rest;
            assert forall|k: int| 0 <= k < left.len() implies solid(#[trigger] left[k], blank) by {
                if k == 0 {
                    assert forall|j: int| 0 <= j < left[0].len() implies #[trigger] left[0][j]
                        != blank by {
                        assert(left[0][j] == word[j + width]);
                    }
                } else {
                    assert(left[k] == rest[k - 1]);
                }
            }
            lemma_filled_is_full(left, seq![], width, blank);
            let more = filled(left, seq![], width, blank);
            assert(lines =~= seq![cut] + more);
            assert forall|j: int| 0 <= j < cut.len() implies #[trigger] cut[j] != blank by {
                assert(cut[j] == word[j]);
            }
            lemma_lead_len(cut, seq![], blank);
            assert(cut + Seq::<V>::empty() =~= cut);
            assert forall|i: int| 0 <= i && i + 1 < lines.len() implies (#[trigger] lines[i]).len()
                + 1 + lead_len(lines[i + 1], blank) > width by {
                if i > 0 {
                    assert(lines[i] == more[i - 1] && lines[i + 1] == more[i]);
                }
            }
        } else {
            lemma_filled_is_full(rest, word, width, blank);
            let first = lines[0];
            assert(first =~= word + first.skip(word.len() as int)) by {
                assert(first.take(word.len() as int) == word);
            }
            lemma_lead_len(word, first.skip(word.len() as int), blank);
        }
    }
}

/// Lines are filled: within a paragraph no line has room for the first word of
/// the next one, or for the part of it that stands there.
pub proof fn law_wrapped_lines_are_full<V>(items: Seq<Item<V>>, width: nat, blank: V)
    requires
        forall|k: int| 0 <= k < items.len() ==> (#[trigger] items[k]) is Cell,
    ensures
        no_room_left(wrapped(items, width, blank), if width == 0 { 1 } else { width }, blank),
{
    let w: nat = if width == 0 { 1 } else { width };
    lemma_one_paragraph(items);
    let para = item_cells(items);
    let list = words(para, blank);
    lemma_words_solid(para, blank);
    assert forall|k: int| 0 <= k < list.len() implies solid(#[trigger] list[k], blank) by {
        assert(solid(words(para, blank)[k], blank));
    }
    lemma_filled_is_full(list, seq![], w, blank);
    assert(seq![para].drop_last() =~= seq![]);
    assert(flowed(seq![para].drop_last(), w, blank) =~= seq![]);
    assert(flowed(seq![para], w, blank) =~= filled(list, seq![], w, blank));
}

proof fn lemma_one_paragraph<V>(items: Seq<Item<V>>)
    requires
        forall|k: int| 0 <= k < items.len() ==> (#[trigger] items[k]) is Cell,
    ensures
        paragraphs(items) == seq![item_cells(items)],
    decreases items.len(),
{
    if items.len() > 0 {
        let head = items.drop_last();
        assert forall|k: int| 0 <= k < head.len() implies (#[trigger] head[k]) is Cell by {
            assert(head[k] == items[k]);
        }
        lemma_one_paragraph(head);
        assert(items[items.len() - 1] is Cell);
        assert(paragraphs(items) =~= seq![item_cells(items)]);
    }
}

proof fn lemma_paragraphs_part<V>(a: Seq<Item<V>>, b: Seq<Item<V>>)
    ensures
        paragraphs(a.push(Item::Break) + b) == paragraphs(a) + paragraphs(b),
        paragraphs(b).len() > 0,
    decreases b.len(),
{
    let all = a.push(Item::Break) + b;
    if b.len() == 0 {
        assert(all =~= a.push(Item::Break));
        assert(all.drop_last() =~= a);
        assert(paragraphs(all) =~= paragraphs(a) + paragraphs(b));
    } else {
        lemma_paragraphs_part(a, b.drop_last());
        assert(all.drop_last() =~= a.push(Item::Break) + b.drop_last());
        assert(all.last() == b.last());
        assert(paragraphs(all) =~= paragraphs(a) + paragraphs(b));
    }
}

proof fn lemma_flowed_adds<V>(a: Seq<Seq<V>>, b: Seq<Seq<V>>, width: nat, blank: V)
    ensures
        flowed(a + b, width, blank) == flowed(a, width, blank) + flowed(b, width, blank),
    decreases b.len(),
{
    if b.len() == 0 {
        assert(a + b =~= a);
        assert(flowed(a, width, blank) + flowed(b, width, blank) =~= flowed(a, width, blank));
    } else {
        lemma_flowed_adds(a, b.drop_last(), width, blank);
        assert((a + b).drop_last() =~= a + b.drop_last());
        assert(flowed(a + b, width, blank) =~= flowed(a, width, blank) + flowed(b, width, blank));
    }
}

/// A line break ends the line: what stands before it and what stands behind it
/// are wrapped each on its own.
pub proof fn law_breaks_part_lines<V>(a: Seq<Item<V>>, b: Seq<Item<V>>, width: nat, blank: V)
    ensures
        wrapped(a.push(Item::Break) + b, width, blank) == wrapped(a, width, blank) + wrapped(
            b,
            width,
            blank,
        ),
{
    lemma_paragraphs_part(a, b);
    lemma_flowed_adds(paragraphs(a), paragraphs(b), if width == 0 { 1 } else { width }, blank);
}

/// The words of lines, one line behind the other.
pub open spec fn line_words<V>(lines: Seq<Seq<V>>, blank: V) -> Seq<Seq<V>>
    decreases lines.len(),
{
    if lines.len() == 0 {
        seq![]
    } else {
        words(lines[0], blank) + line_words(lines.drop_first(), blank)
    }
}

proof fn lemma_words_of_solid<V>(word: Seq<V>, blank: V)
    requires
        solid(word, blank),
    ensures
        words(word, blank) == seq![word],
    decreases word.len(),
{
    let rest = word.drop_last();
    assert(word[word.len() - 1] != blank);
    if rest.len() > 0 {
        assert(rest[rest.len() - 1] == word[rest.len() - 1]);
        assert(word[rest.len() - 1] != blank);
        assert forall|j: int| 0 <= j < rest.len() implies #[trigger] rest[j] != blank by {
            assert(rest[j] == word[j]);
        }
        lemma_words_of_solid(rest, blank);
        assert(rest.push(word.last()) =~= word);
        assert(words(word, blank) =~= seq![word]);
    } else {
        assert(words(rest, blank) =~= seq![]);
        assert(seq![word.last()] =~= word);
        assert(words(word, blank) =~= seq![word]);
    }
}

proof fn lemma_words_behind_blank<V>(line: Seq<V>, word: Seq<V>, blank: V)
    requires
        solid(word, blank),
    ensures
        words(line.push(blank) + word, blank) == words(line, blank).push(word),
    decreases word.len(),
{
    let all = line.push(blank) + word;
    let rest = word.drop_last();
    assert(word[word.len() - 1] != blank);
    assert(all.last() == word.last());
    assert(all.drop_last() =~= line.push(blank) + rest);
    if rest.len() > 0 {
        assert(rest[rest.len() - 1] == word[rest.len() - 1]);
        assert(word[rest.len() - 1] != blank);
        assert forall|j: int| 0 <= j < rest.len() implies #[trigger] rest[j] != blank by {
            assert(rest[j] == word[j]);
        }
        lemma_words_behind_blank(line, rest, blank);
        assert(all.drop_last().last() == rest.last());
        assert(rest.push(word.last()) =~= word);
        assert(words(all, blank) =~= words(line, blank).push(word));
    } else {
        assert(all.drop_last() =~= line.push(blank));
        assert(line.push(blank).drop_last() =~= line);
        assert(line.push(blank).last() == blank);
        assert(words(line.push(blank), blank) == words(line, blank));
        assert(seq![word.last()] =~= word);
        assert(words(all, blank) =~= words(line, blank).push(word));
    }
}

proof fn lemma_filled_words<V>(list: Seq<Seq<V>>, line: Seq<V>, width: nat, blank: V)
    requires
        all_solid(list, blank),
        forall|k: int| 0 <= k < list.len() ==> (#[trigger] list[k]).len() <= width,
    ensures
        line_words(filled(list, line, width, blank), blank) == words(line, blank) + list,
    decreases list.len(), line.len(),
{
    let lines = filled(list, line, width, blank);
    if list.len() == 0 {
        if line.len() == 0 {
            assert(words(line, blank) + list =~= seq![]);
        } else {
            assert(seq![line].drop_first() =~= seq![]);
            assert(line_words(seq![line].drop_first(), blank) =~= seq![]);
            assert(line_words(lines, blank) =~= words(line, blank) + list);
        }
    } else {
        let word = list[0];
        let rest = list.drop_first();
        assert(solid(word, blank) && word.len() <= width);
        assert forall|k: int| 0 <= k < rest.len() implies solid(#[trigger] rest[k], blank) by {
            assert(rest[k] == list[k + 1]);
        }
        assert forall|k: int| 0 <= k < rest.len() implies (#[trigger] rest[k]).len() <= width by {
            assert(rest[k] == list[k + 1]);
        }
        if line.len() > 0 {
            if line.len() + 1 + word.len() > width {
                lemma_filled_words(list, seq![], width, blank);
                let more = filled(list, seq![], width, blank);
                assert((seq![line] + more).drop_first() =~= more);
                assert(words(Seq::<V>::empty(), blank) =~= seq![]);
                assert(line_words(lines, blank) =~= words(line, blank) + list);
            } else {
                lemma_words_behind_blank(line, word, blank);
                lemma_filled_words(rest, line.push(blank) + word, width, blank);
                assert(words(line, blank).push(word) + rest =~= words(line, blank) + list);
            }
        } else {
            lemma_words_of_solid(word, blank);
            lemma_filled_words(rest, word, width, blank);
            assert(words(line, blank) =~= seq![]);
            assert(seq![word] + rest =~= words(line, blank) + list);
        }
    }
}

/// Words that fit on a line stay whole and in order: the lines of a paragraph
/// hold its words, each on one line.
pub proof fn law_words_stay_whole<V>(items: Seq<Item<V>>, width: nat, blank: V)
    requires
        width > 0,
        forall|k: int| 0 <= k < items.len() ==> (#[trigger] items[k]) is Cell,
        forall|k: int|
            0 <= k < words(item_cells(items), blank).len() ==> (#[trigger] words(
                item_cells(items),
                blank,
            )[k]).len() <= width,
    ensures
        line_words(wrapped(items, width, blank), blank) == words(item_cells(items), blank),
{
    lemma_one_paragraph(items);
    let para = item_cells(items);
    let list = words(para, blank);
    lemma_words_solid(para, blank);
    assert forall|k: int| 0 <= k < list.len() implies solid(#[trigger] list[k], blank) by {
        assert(solid(words(para, blank)[k], blank));
    }
    lemma_filled_words(list, seq![], width, blank);
    assert(seq![para].drop_last() =~= seq![]);
    assert(flowed(seq![para].drop_last(), width, blank) =~= seq![]);
    assert(flowed(seq![para], width, blank) =~= filled(list, seq![], width, blank));
    assert(words(Seq::<V>::empty(), blank) + list =~= list);
}

proof fn lemma_joined_has<V>(lines: Seq<Seq<V>>, k: int, j: int)
    requires
        0 <= k < lines.len(),
        0 <= j < lines[k].len(),
    ensures
        joined(lines).contains(lines[k][j]),
    decreases lines.len(),
{
    let head = joined(lines.drop_last());
    if k == lines.len() - 1 {
        assert(joined(lines)[head.len() + j] == lines[k][j]);
    } else {
        lemma_joined_has(lines.drop_last(), k, j);
        let i = choose|i: int| 0 <= i < head.len() && head[i] == lines[k][j];
        assert(joined(lines)[i] == head[i]);
    }
}

proof fn lemma_ink_comes_from<V>(cells: Seq<V>, cell: V, blank: V)
    requires
        ink(cells, blank).contains(cell),
    ensures
        cells.contains(cell),
    decreases cells.len(),
{
    reveal(Seq::filter);
    if cells.len() > 0 {
        let rest = cells.drop_last();
        if cell == cells.last() {
            assert(cells[cells.len() - 1] == cell);
        } else {
            let i = choose|i: int|
                0 <= i < ink(cells, blank).len() && ink(cells, blank)[i] == cell;
            assert(ink(rest, blank)[i] == cell);
            lemma_ink_comes_from(rest, cell, blank);
            let k = choose|k: int| 0 <= k < rest.len() && rest[k] == cell;
            assert(cells[k] == cell);
        }
    }
}

/// Wrapping makes up nothing but blanks: every other cell of a line is a cell of
/// the text.
pub proof fn law_lines_hold_the_text<V>(
    items: Seq<Item<V>>,
    width: nat,
    blank: V,
    k: int,
    j: int,
)
    requires
        0 <= k < wrapped(items, width, blank).len(),
        0 <= j < wrapped(items, width, blank)[k].len(),
        wrapped(items, width, blank)[k][j] != blank,
    ensures
        item_cells(items).contains(wrapped(items, width, blank)[k][j]),
{
    let lines = wrapped(items, width, blank);
    let cell = lines[k][j];
    law_wrapping_keeps_the_text(items, width, blank);
    lemma_joined_has(lines, k, j);
    let all = joined(lines);
    let i = choose|i: int| 0 <= i < all.len() && all[i] == cell;
    assert(ink(all, blank).contains(all[i]));
    lemma_ink_comes_from(item_cells(items), cell, blank);
}

/// Text is shown character by character: two texts behind one another give the
/// items of the first and of the second.
pub proof fn law_text_is_shown_in_order<V>(
    a: Seq<char>,
    b: Seq<char>,
    shown: spec_fn(char) -> Seq<V>,
)
    ensures
        text_items(a + b, shown) == text_items(a, shown) + text_items(b, shown),
    decreases b.len(),
{
    if b.len() == 0 {
        assert(a + b =~= a);
        assert(text_items(a, shown) + text_items(b, shown) =~= text_items(a, shown));
    } else {
        law_text_is_shown_in_order(a, b.drop_last(), shown);
        assert((a + b).drop_last() =~= a + b.drop_last());
        assert(text_items(a + b, shown) =~= text_items(a, shown) + text_items(b, shown));
    }
}

/// A line feed is a line break, and any other character is the cells that show
/// it.
pub proof fn law_line_feeds_are_breaks<V>(c: char, shown: spec_fn(char) -> Seq<V>)
    ensures
        c == '\n' ==> text_items(seq![c], shown) == seq![Item::<V>::Break],
        c != '\n' ==> item_cells(text_items(seq![c], shown)) == shown(c),
        c != '\n' ==> forall|k: int|
            0 <= k < text_items(seq![c], shown).len() ==> (#[trigger] text_items(
                seq![c],
                shown,
            )[k]) is Cell,
{
    assert(seq![c].drop_last() =~= seq![]);
    assert(text_items(seq![c].drop_last(), shown) =~= seq![]);
    if c == '\n' {
        assert(text_items(seq![c], shown) =~= seq![Item::<V>::Break]);
    } else {
        let items = shown(c).map_values(|v: V| Item::Cell(v));
        assert(text_items(seq![c], shown) =~= items);
        lemma_cells_of_cells(shown(c), items);
    }
}

proof fn lemma_cells_of_cells<V>(cells: Seq<V>, items: Seq<Item<V>>)
    requires
        items.len() == cells.len(),
        forall|k: int| 0 <= k < cells.len() ==> #[trigger] items[k] == Item::Cell(cells[k]),
    ensures
        item_cells(items) == cells,
    decreases cells.len(),
{
    if cells.len() > 0 {
        let less = items.drop_last();
        assert forall|k: int| 0 <= k < cells.len() - 1 implies #[trigger] less[k] == Item::Cell(
            cells.drop_last()[k],
        ) by {
            assert(less[k] == items[k]);
        }
        lemma_cells_of_cells(cells.drop_last(), less);
        assert(items[items.len() - 1] == Item::Cell(cells[cells.len() - 1]));
        assert(item_cells(items) =~= cells);
    } else {
        assert(item_cells(items) =~= cells);
    }
}

} // verus!
