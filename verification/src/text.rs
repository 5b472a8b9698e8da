//! Text preparation shared by the 608 and 708 encoders: cells and word wrapping.
use vstd::prelude::*;

use crate::charset::{cell_bytes, map_608, map_708, shown_608, shown_708, Cell, Cell708};

verus! {

/// What wrapping needs to know about a cell.
pub trait Glyph: Sized {
    /// What a cell shows, apart from how it is stored.
    type Shape;

    spec fn shape(&self) -> Self::Shape;

    /// The shape of a space.
    spec fn blank() -> Self::Shape;

    fn is_space(&self) -> (r: bool)
        ensures
            r == (self.shape() == Self::blank()),
    ;

    fn space() -> (r: Self)
        ensures
            r.shape() == Self::blank(),
    ;

    /// Another cell of the same shape.
    fn duplicate(&self) -> (r: Self)
        ensures
            r.shape() == self.shape(),
    ;
}

impl Glyph for Cell {
    type Shape = Cell;

    open spec fn shape(&self) -> Cell {
        *self
    }

    open spec fn blank() -> Cell {
        Cell::Basic(0x20)
    }

    fn is_space(&self) -> (r: bool) {
        *self == Cell::Basic(0x20)
    }

    fn space() -> (r: Self) {
        Cell::Basic(0x20)
    }

    fn duplicate(&self) -> (r: Self) {
        *self
    }
}

impl Glyph for Cell708 {
    type Shape = Seq<u8>;

    open spec fn shape(&self) -> Seq<u8> {
        self@
    }

    open spec fn blank() -> Seq<u8> {
        seq![0x20u8]
    }

    fn is_space(&self) -> (r: bool) {
        let r = self.len() == 1 && self[0] == 0x20;
        assert(r ==> self@ == seq![0x20u8]);
        r
    }

    fn space() -> (r: Self) {
        let r = vec![0x20u8];
        assert(r@ == seq![0x20u8]);
        r
    }

    fn duplicate(&self) -> (r: Self) {
        let r = self.clone();
        assert(r@ == self@);
        r
    }
}

/// The shapes of a run of cells.
pub open spec fn shapes<G: Glyph>(cells: Seq<G>) -> Seq<G::Shape> {
    cells.map_values(|g: G| g.shape())
}

/// The shapes of a list of lines.
pub open spec fn line_shapes<G: Glyph>(lines: Seq<Vec<G>>) -> Seq<Seq<G::Shape>> {
    lines.map_values(|line: Vec<G>| shapes(line@))
}

/// A cell, or a hard line break between cells.
pub enum Item<G> {
    Cell(G),
    Break,
}

/// The shape of an item.
pub open spec fn item_shape<G: Glyph>(item: Item<G>) -> Item<G::Shape> {
    match item {
        Item::Cell(g) => Item::Cell(g.shape()),
        Item::Break => Item::Break,
    }
}

/// The shapes of a list of items.
pub open spec fn item_shapes<G: Glyph>(items: Seq<Item<G>>) -> Seq<Item<G::Shape>> {
    items.map_values(|item: Item<G>| item_shape(item))
}

/// Text as items: line breaks at `\n`, and for every other character the cells
/// that show it.
pub open spec fn text_items<V>(text: Seq<char>, shown: spec_fn(char) -> Seq<V>) -> Seq<Item<V>>
    decreases text.len(),
{
    if text.len() == 0 {
        seq![]
    } else {
        let head = text_items(text.drop_last(), shown);
        if text.last() == '\n' {
            head.push(Item::Break)
        } else {
            head + shown(text.last()).map_values(|v: V| Item::Cell(v))
        }
    }
}

/// Text as 608 items.
pub open spec fn items_608(text: Seq<char>) -> Seq<Item<Cell>> {
    text_items(text, |c: char| shown_608(c))
}

/// Text as 708 items.
pub open spec fn items_708(text: Seq<char>) -> Seq<Item<Seq<u8>>> {
    text_items(text, |c: char| shown_708(c))
}

/// Text as 608 cells, with `\n` kept as line breaks.
pub fn cells_608(text: &str) -> (r: Vec<Item<Cell>>)
    ensures
        r@ == items_608(text@),
        item_shapes(r@) == items_608(text@),
{
    let mut r: Vec<Item<Cell>> = Vec::new();
    for c in it: text.chars()
        invariant
            it.seq() == text@,
            r@ == items_608(text@.take(it.index() as int)),
    {
        let ghost upto = text@.take(it.index() + 1);
        assert(upto.drop_last() == text@.take(it.index() as int));
        let ghost before = r@;
        if c == '\n' {
            r.push(Item::Break);
        } else {
            let cells = map_608(c);
            let mut k: usize = 0;
            while k < cells.len()
                invariant
                    k <= cells.len(),
                    r@ == before + cells@.take(k as int).map_values(|v: Cell| Item::Cell(v)),
                decreases cells.len() - k,
            {
                r.push(Item::Cell(cells[k]));
                k = k + 1;
                assert(r@ == before + cells@.take(k as int).map_values(|v: Cell| Item::Cell(v)));
            }
            assert(cells@.take(k as int) == cells@);
        }
        assert(r@ == items_608(upto));
    }
    assert(text@.take(text@.len() as int) == text@);
    assert(item_shapes(r@) =~= r@);
    r
}

/// Text as 708 cells, with `\n` kept as line breaks.
pub fn cells_708(text: &str) -> (r: Vec<Item<Cell708>>)
    ensures
        item_shapes(r@) == items_708(text@),
{
    let mut r: Vec<Item<Cell708>> = Vec::new();
    for c in it: text.chars()
        invariant
            it.seq() == text@,
            item_shapes(r@) == items_708(text@.take(it.index() as int)),
    {
        let ghost upto = text@.take(it.index() + 1);
        assert(upto.drop_last() == text@.take(it.index() as int));
        let ghost before = item_shapes(r@);
        if c == '\n' {
            r.push(Item::Break);
            assert(item_shapes(r@) == before.push(Item::Break));
        } else {
            let cells = map_708(c);
            let ghost bytes = cell_bytes(cells@);
            let mut k: usize = 0;
            while k < cells.len()
                invariant
                    k <= cells.len(),
                    bytes == cell_bytes(cells@),
                    item_shapes(r@) == before + bytes.take(k as int).map_values(
                        |v: Seq<u8>| Item::Cell(v),
                    ),
                decreases cells.len() - k,
            {
                let ghost prev = item_shapes(r@);
                let cell = cells[k].duplicate();
                r.push(Item::Cell(cell));
                assert(item_shapes(r@) == prev.push(Item::Cell(bytes[k as int])));
                k = k + 1;
                assert(prev.push(Item::Cell(bytes[k - 1])) == before + bytes.take(
                    k as int,
                ).map_values(|v: Seq<u8>| Item::Cell(v)));
            }
            assert(bytes.take(k as int) == bytes);
        }
        assert(item_shapes(r@) == items_708(upto));
    }
    assert(text@.take(text@.len() as int) == text@);
    r
}

/// The paragraphs of a list of items: what stands between hard breaks.
pub open spec fn paragraphs<V>(items: Seq<Item<V>>) -> Seq<Seq<V>>
    decreases items.len(),
{
    if items.len() == 0 {
        seq![seq![]]
    } else {
        let head = paragraphs(items.drop_last());
        match items.last() {
            Item::Cell(v) => head.update(head.len() - 1, head.last().push(v)),
            Item::Break => head.push(seq![]),
        }
    }
}

/// The words of a run of cells: its longest runs without `blank`.
pub open spec fn words<V>(cells: Seq<V>, blank: V) -> Seq<Seq<V>>
    decreases cells.len(),
{
    if cells.len() == 0 {
        seq![]
    } else {
        let rest = cells.drop_last();
        let head = words(rest, blank);
        if cells.last() == blank {
            head
        } else if rest.len() > 0 && rest.last() != blank {
            head.update(head.len() - 1, head.last().push(cells.last()))
        } else {
            head.push(seq![cells.last()])
        }
    }
}

/// Greedy filling: the lines of at most `width` cells that `words` give when
/// `line` has been started. A word goes on the started line, behind a blank, if
/// it fits there; a word longer than a line is cut at `width`.
pub open spec fn filled<V>(words: Seq<Seq<V>>, line: Seq<V>, width: nat, blank: V) -> Seq<Seq<V>>
    decreases words.len(), (if words.len() > 0 { words[0].len() } else { 0 }), line.len(),
{
    if words.len() == 0 {
        if line.len() == 0 {
            seq![]
        } else {
            seq![line]
        }
    } else {
        let word = words[0];
        let rest = words.drop_first();
        if line.len() > 0 {
            if line.len() + 1 + word.len() > width {
                seq![line] + filled(words, seq![], width, blank)
            } else {
                filled(rest, line.push(blank) + word, width, blank)
            }
        } else if word.len() > width && width > 0 {
            seq![word.take(width as int)] + filled(
                seq![word.skip(width as int)] + rest,
                seq![],
                width,
                blank,
            )
        } else {
            filled(rest, word, width, blank)
        }
    }
}

/// The lines of a list of paragraphs, each filled on its own.
pub open spec fn flowed<V>(paragraphs: Seq<Seq<V>>, width: nat, blank: V) -> Seq<Seq<V>>
    decreases paragraphs.len(),
{
    if paragraphs.len() == 0 {
        seq![]
    } else {
        flowed(paragraphs.drop_last(), width, blank) + filled(
            words(paragraphs.last(), blank),
            seq![],
            width,
            blank,
        )
    }
}

/// Word wrap: every paragraph filled into lines of `width` cells, or of one
/// cell where `width` is zero.
pub open spec fn wrapped<V>(items: Seq<Item<V>>, width: nat, blank: V) -> Seq<Seq<V>> {
    flowed(paragraphs(items), if width == 0 { 1 } else { width }, blank)
}

proof fn lemma_paragraphs_nonempty<V>(items: Seq<Item<V>>)
    ensures
        paragraphs(items).len() > 0,
    decreases items.len(),
{
    if items.len() > 0 {
        lemma_paragraphs_nonempty(items.drop_last());
    }
}

proof fn lemma_open_word<V>(cells: Seq<V>, blank: V)
    ensures
        cells.len() > 0 && cells.last() != blank ==> words(cells, blank).len() > 0,
    decreases cells.len(),
{
    if cells.len() > 0 {
        lemma_open_word(cells.drop_last(), blank);
    }
}

/// Appends copies of `word[from..to]`.
fn append_cells<G: Glyph>(line: &mut Vec<G>, word: &Vec<G>, from: usize, to: usize)
    requires
        from <= to <= word.len(),
    ensures
        shapes(final(line)@) == shapes(old(line)@) + shapes(word@).subrange(from as int, to as int),
{
    let mut k: usize = from;
    let ghost before = shapes(line@);
    let ghost cells = shapes(word@);
    assert(shapes(line@) == before + cells.subrange(from as int, from as int));
    while k < to
        invariant
            from <= k <= to <= word.len(),
            cells == shapes(word@),
            shapes(line@) == before + cells.subrange(from as int, k as int),
        decreases to - k,
    {
        let ghost prev = shapes(line@);
        let cell = word[k].duplicate();
        line.push(cell);
        assert(shapes(line@) == prev.push(cells[k as int]));
        k = k + 1;
        assert(prev.push(cells[k - 1]) == before + cells.subrange(from as int, k as int));
    }
}

/// Appends the lines that `words` fill.
fn fill<G: Glyph>(words: &Vec<Vec<G>>, width: usize, lines: &mut Vec<Vec<G>>)
    requires
        width > 0,
    ensures
        line_shapes(final(lines)@) == line_shapes(old(lines)@) + filled(
            line_shapes(words@),
            seq![],
            width as nat,
            G::blank(),
        ),
{
    let ghost all = line_shapes(words@);
    let ghost target = line_shapes(lines@) + filled(all, seq![], width as nat, G::blank());
    let mut line: Vec<G> = Vec::new();
    assert(shapes(line@) == Seq::<G::Shape>::empty());
    assert(all.skip(0) == all);
    let mut i: usize = 0;
    while i < words.len()
        invariant
            0 < width,
            i <= words.len(),
            all == line_shapes(words@),
            target == line_shapes(lines@) + filled(
                all.skip(i as int),
                shapes(line@),
                width as nat,
                G::blank(),
            ),
            line.len() <= width,
        decreases words.len() - i,
    {
        let word = &words[i];
        let ghost cells = shapes(word@);
        let ghost rest = all.skip(i + 1);
        assert(all.skip(i as int) == seq![cells] + rest);
        assert(all.skip(i as int).drop_first() == rest);
        assert(all.skip(i as int)[0] == cells);
        if line.len() > 0 && word.len() >= width - line.len() {
            let ghost started = shapes(line@);
            let ghost prev = line_shapes(lines@);
            assert(started.len() + 1 + cells.len() > width);
            lines.push(line);
            assert(line_shapes(lines@) == prev.push(started));
            line = Vec::new();
            assert(shapes(line@) == Seq::<G::Shape>::empty());
            let ghost after = filled(all.skip(i as int), seq![], width as nat, G::blank());
            assert(prev.push(started) + after == prev + (seq![started] + after));
        }
        let mut from: usize = 0;
        assert(cells.skip(0) == cells);
        while word.len() - from > width
            invariant
                0 < width,
                from <= word.len(),
                cells == shapes(word@),
                line.len() > 0 ==> from == 0 && line.len() + 1 + word.len() <= width,
                line.len() <= width,
                target == line_shapes(lines@) + filled(
                    seq![cells.skip(from as int)] + rest,
                    shapes(line@),
                    width as nat,
                    G::blank(),
                ),
            decreases word.len() - from,
        {
            assert(line.len() == 0);
            assert(shapes(line@) == Seq::<G::Shape>::empty());
            let mut piece: Vec<G> = Vec::new();
            append_cells(&mut piece, word, from, from + width);
            let ghost prev = line_shapes(lines@);
            let ghost cut = cells.skip(from as int);
            assert(shapes(piece@) == cut.take(width as int));
            lines.push(piece);
            assert(line_shapes(lines@) == prev.push(cut.take(width as int)));
            proof {
                let pending = seq![cut] + rest;
                assert(pending.drop_first() == rest);
                let after = filled(
                    seq![cut.skip(width as int)] + rest,
                    seq![],
                    width as nat,
                    G::blank(),
                );
                assert(prev.push(cut.take(width as int)) + after == prev + (seq![
                    cut.take(width as int),
                ] + after));
                assert(cut.skip(width as int) == cells.skip(from + width));
            }
            from = from + width;
        }
        let ghost tail = cells.skip(from as int);
        proof {
            let pending = seq![tail] + rest;
            assert(pending.drop_first() == rest);
            assert(pending[0] == tail);
        }
        let ghost started = shapes(line@);
        if line.len() > 0 {
            let blank = G::space();
            line.push(blank);
            assert(shapes(line@) == started.push(G::blank()));
        }
        let ghost begun = shapes(line@);
        append_cells(&mut line, word, from, word.len());
        assert(cells.subrange(from as int, cells.len() as int) == tail);
        assert(begun.len() == 0 ==> begun + tail == tail);
        i = i + 1;
    }
    assert(all.skip(i as int).len() == 0);
    if line.len() > 0 {
        let ghost prev = line_shapes(lines@);
        let ghost last = shapes(line@);
        lines.push(line);
        assert(line_shapes(lines@) == prev.push(last));
        assert(prev.push(last) == prev + seq![last]);
    } else {
        assert(line_shapes(lines@) + Seq::<Seq<G::Shape>>::empty() == line_shapes(lines@));
    }
}

/// Greedy word wrap into lines of at most `width` cells. Runs of spaces
/// collapse to one; leading/trailing spaces are dropped; empty lines are
/// removed; words longer than `width` are hard-split.
pub fn wrap<G: Glyph>(items: &[Item<G>], width: usize) -> (r: Vec<Vec<G>>)
    ensures
        line_shapes(r@) == wrapped(item_shapes(items@), width as nat, G::blank()),
{
    let width: usize = if width == 0 { 1 } else { width };
    let ghost all = item_shapes(items@);
    let mut lines: Vec<Vec<G>> = Vec::new();
    let mut paragraph: Vec<Vec<G>> = Vec::new();
    let mut word: Vec<G> = Vec::new();
    let ghost mut cells: Seq<G::Shape> = seq![];
    assert(line_shapes(lines@) == Seq::<Seq<G::Shape>>::empty());
    assert(line_shapes(paragraph@) == Seq::<Seq<G::Shape>>::empty());
    assert(paragraphs(all.take(0)).drop_last() == Seq::<Seq<G::Shape>>::empty());
    for i in 0..items.len()
        invariant
            0 < width,
            all == item_shapes(items@),
            paragraphs(all.take(i as int)).len() > 0,
            cells == paragraphs(all.take(i as int)).last(),
            line_shapes(lines@) == flowed(
                paragraphs(all.take(i as int)).drop_last(),
                width as nat,
                G::blank(),
            ),
            words(cells, G::blank()) == (if word.len() > 0 {
                line_shapes(paragraph@).push(shapes(word@))
            } else {
                line_shapes(paragraph@)
            }),
            word.len() > 0 <==> cells.len() > 0 && cells.last() != G::blank(),
    {
        let ghost upto = all.take(i + 1);
        let ghost head = paragraphs(all.take(i as int));
        proof {
            assert(upto.drop_last() == all.take(i as int));
            lemma_paragraphs_nonempty(upto);
            lemma_open_word(cells, G::blank());
        }
        let ghost started = line_shapes(paragraph@);
        let ghost open_word = shapes(word@);
        match &items[i] {
            Item::Cell(g) => {
                let ghost more = cells.push(g.shape());
                assert(more.drop_last() == cells);
                assert(paragraphs(upto) == head.update(head.len() - 1, more));
                assert(paragraphs(upto).drop_last() == head.drop_last());
                if g.is_space() {
                    if word.len() > 0 {
                        paragraph.push(word);
                        assert(line_shapes(paragraph@) == started.push(open_word));
                        word = Vec::new();
                    }
                } else {
                    let g2 = g.duplicate();
                    word.push(g2);
                    assert(shapes(word@) == open_word.push(g.shape()));
                    proof {
                        if open_word.len() == 0 {
                            assert(shapes(word@) == seq![g.shape()]);
                        } else {
                            let old_words = started.push(open_word);
                            assert(old_words.update(old_words.len() - 1, shapes(word@))
                                == started.push(shapes(word@)));
                        }
                    }
                }
                proof {
                    cells = more;
                }
            },
            Item::Break => {
                if word.len() > 0 {
                    paragraph.push(word);
                    assert(line_shapes(paragraph@) == started.push(open_word));
                    word = Vec::new();
                }
                fill(&paragraph, width, &mut lines);
                paragraph = Vec::new();
                assert(line_shapes(paragraph@) == Seq::<Seq<G::Shape>>::empty());
                assert(paragraphs(upto) == head.push(seq![]));
                assert(paragraphs(upto).drop_last() == head);
                proof {
                    cells = seq![];
                }
            },
        }
    }
    assert(all.take(items@.len() as int) == all);
    if word.len() > 0 {
        let ghost started = line_shapes(paragraph@);
        let ghost open_word = shapes(word@);
        paragraph.push(word);
        assert(line_shapes(paragraph@) == started.push(open_word));
    }
    fill(&paragraph, width, &mut lines);
    lines
}

} // verus!
