//! A receiver of CEA-608 captions, as far as captions use it, and what it shows of
//! what the encoder sends.
use vstd::prelude::*;

use crate::cc::{law_parity_is_odd, with_parity, Channel};
use crate::cea608::{cut_point, pac_code, parity_pair, text_codes};
use crate::cea608::{Code, Encoder608, Mode608, Pair};
use crate::cea608_laws::{all_printable, lemma_lines_are_printable, printable, text_lines_608};
use crate::charset::Cell;

verus! {

/// A character as a receiver knows it: its set (0 for the standard one) and its
/// code there.
pub struct Glyph {
    pub set: u8,
    pub code: u8,
}

/// The way in which text reaches the screen.
pub enum Style {
    Idle,
    /// Roll-up with so many rows.
    Roll(int),
    /// Text is written off screen.
    Pop,
    /// Text is written on screen.
    Paint,
}

/// The rows of a memory; row 0 is not used.
pub open spec fn blank() -> Seq<Seq<Glyph>> {
    Seq::new(16, |r: int| Seq::<Glyph>::empty())
}

/// A receiver tuned to one channel.
#[verifier::ext_equal]
pub struct Receiver {
    pub style: Style,
    pub row: int,
    /// What is on screen, and what is written off screen.
    pub front: Seq<Seq<Glyph>>,
    pub back: Seq<Seq<Glyph>>,
    /// Screens that were swapped in or erased, in turn.
    pub screens: Seq<Seq<Seq<Glyph>>>,
    /// Roll-up lines, the newest last.
    pub rolled: Seq<Seq<Glyph>>,
    /// The control code heard last, until a character comes.
    pub last: Option<(u8, u8)>,
}

/// The bit that control codes of the second channel of a field carry.
pub open spec fn second(ch: Channel) -> int {
    match ch {
        Channel::Cc1 | Channel::Cc3 => 0,
        Channel::Cc2 | Channel::Cc4 => 8,
    }
}

/// The first byte of the channel's miscellaneous codes.
pub open spec fn misc_byte(ch: Channel) -> int {
    match ch {
        Channel::Cc1 => 0x14,
        Channel::Cc2 => 0x1C,
        Channel::Cc3 => 0x15,
        Channel::Cc4 => 0x1D,
    }
}

/// The row that an address code names.
pub open spec fn addressed_row(a: int, b: int) -> int {
    let lower = b / 0x20 % 2;
    if a == 0x11 {
        1 + lower
    } else if a == 0x12 {
        3 + lower
    } else if a == 0x15 {
        5 + lower
    } else if a == 0x16 {
        7 + lower
    } else if a == 0x17 {
        9 + lower
    } else if a == 0x10 {
        11
    } else if a == 0x13 {
        12 + lower
    } else {
        14 + lower
    }
}

impl Receiver {
    /// A character is written where the cursor is.
    pub open spec fn put(self, g: Glyph) -> Receiver {
        match self.style {
            Style::Idle => self,
            Style::Roll(_) => if self.rolled.len() == 0 {
                self
            } else {
                Receiver {
                    rolled: self.rolled.update(
                        self.rolled.len() - 1,
                        self.rolled.last().push(g),
                    ),
                    ..self
                }
            },
            Style::Pop => Receiver {
                back: self.back.update(self.row, self.back[self.row].push(g)),
                ..self
            },
            Style::Paint => Receiver {
                front: self.front.update(self.row, self.front[self.row].push(g)),
                ..self
            },
        }
    }

    /// The character before the cursor is taken away.
    pub open spec fn step_back(self) -> Receiver {
        match self.style {
            Style::Idle => self,
            Style::Roll(_) => if self.rolled.len() == 0 {
                self
            } else {
                Receiver {
                    rolled: self.rolled.update(
                        self.rolled.len() - 1,
                        self.rolled.last().drop_last(),
                    ),
                    ..self
                }
            },
            Style::Pop => Receiver {
                back: self.back.update(self.row, self.back[self.row].drop_last()),
                ..self
            },
            Style::Paint => Receiver {
                front: self.front.update(self.row, self.front[self.row].drop_last()),
                ..self
            },
        }
    }

    /// A control code takes effect.
    pub open spec fn obey(self, ch: Channel, a: int, b: int) -> Receiver {
        if b >= 0x40 {
            Receiver { row: addressed_row(a - second(ch), b), ..self }
        } else if a == misc_byte(ch) && b < 0x30 {
            if b == 0x20 {
                Receiver { style: Style::Pop, ..self }
            } else if 0x25 <= b <= 0x27 {
                Receiver { style: Style::Roll(b - 0x23), ..self }
            } else if b == 0x29 {
                Receiver { style: Style::Paint, ..self }
            } else if b == 0x2C {
                Receiver { screens: self.screens.push(self.front), front: blank(), ..self }
            } else if b == 0x2D {
                Receiver { rolled: self.rolled.push(seq![]), ..self }
            } else if b == 0x2E {
                Receiver { back: blank(), ..self }
            } else if b == 0x2F {
                Receiver {
                    style: Style::Pop,
                    front: self.back,
                    back: self.front,
                    screens: self.screens.push(self.back),
                    ..self
                }
            } else {
                self
            }
        } else if a == 0x11 + second(ch) && b >= 0x30 {
            self.put(Glyph { set: 0x11, code: b as u8 })
        } else if a == 0x12 + second(ch) || a == 0x13 + second(ch) {
            self.step_back().put(Glyph { set: (a - second(ch)) as u8, code: b as u8 })
        } else {
            self
        }
    }

    /// A byte pair, parity and all. A control code that repeats the one before it
    /// is ignored.
    pub open spec fn hear(self, ch: Channel, p: Pair) -> Receiver {
        let a = p.hi & 0x7F;
        let b = p.lo & 0x7F;
        if 0x10 <= a <= 0x1F {
            if self.last == Some((a, b)) {
                self
            } else {
                Receiver { last: Some((a, b)), ..self.obey(ch, a as int, b as int) }
            }
        } else if a >= 0x20 {
            let one = Receiver { last: None, ..self.put(Glyph { set: 0, code: a }) };
            if b >= 0x20 {
                one.put(Glyph { set: 0, code: b })
            } else {
                one
            }
        } else {
            self
        }
    }
}

/// Byte pairs one after the other.
pub open spec fn heard(rx: Receiver, ch: Channel, pairs: Seq<Pair>) -> Receiver
    decreases pairs.len(),
{
    if pairs.len() == 0 {
        rx
    } else {
        heard(rx, ch, pairs.drop_last()).hear(ch, pairs.last())
    }
}

/// The character that a cell stands for.
pub open spec fn glyph(cell: Cell) -> Glyph {
    match cell {
        Cell::Basic(b) => Glyph { set: 0, code: b },
        Cell::Special(lo) => Glyph { set: 0x11, code: lo },
        Cell::Extended { set, lo, base } => Glyph { set, code: lo },
    }
}

/// The characters of a line.
pub open spec fn glyphs(line: Seq<Cell>) -> Seq<Glyph> {
    Seq::new(line.len(), |k: int| glyph(line[k]))
}

/// A screen with lines on consecutive rows, the last one on the base row.
pub open spec fn screen(base: int, lines: Seq<Seq<Cell>>) -> Seq<Seq<Glyph>> {
    Seq::new(
        16,
        |r: int|
            if base - lines.len() < r <= base {
                glyphs(lines[r - (base + 1 - lines.len())])
            } else {
                seq![]
            },
    )
}

/// The screens of a caption that is shown by groups of at most `n` lines.
pub open spec fn screens_of(base: int, n: int, lines: Seq<Seq<Cell>>) -> Seq<Seq<Seq<Glyph>>>
    decreases lines.len(),
{
    if lines.len() == 0 || n <= 0 {
        seq![]
    } else if lines.len() <= n {
        seq![screen(base, lines)]
    } else {
        seq![screen(base, lines.take(n))] + screens_of(base, n, lines.skip(n))
    }
}

/// The lines of a roll-up caption.
pub open spec fn rolled_of(lines: Seq<Seq<Cell>>) -> Seq<Seq<Glyph>> {
    Seq::new(lines.len(), |k: int| glyphs(lines[k]))
}

/// What a code does once it is heard, repetitions and all.
spec fn acted(rx: Receiver, ch: Channel, code: Code) -> Receiver {
    match code {
        Code::Control { hi, lo, boundary } => Receiver {
            last: Some((hi, lo)),
            ..rx.obey(ch, hi as int, lo as int)
        },
        Code::Text { a, b } => {
            let one = Receiver { last: None, ..rx.put(Glyph { set: 0, code: a }) };
            if b >= 0x20 {
                one.put(Glyph { set: 0, code: b })
            } else {
                one
            }
        },
    }
}

spec fn acted_all(rx: Receiver, ch: Channel, codes: Seq<Code>) -> Receiver
    decreases codes.len(),
{
    if codes.len() == 0 {
        rx
    } else {
        acted_all(acted(rx, ch, codes[0]), ch, codes.drop_first())
    }
}

/// A code that goes out as it is: seven bits, and control codes told apart from
/// text. The filler is none of them.
spec fn plain(ch: Channel, code: Code) -> bool {
    match code {
        Code::Control { hi, lo, boundary } => 0x10 <= hi <= 0x1F && 0x20 <= lo <= 0x7F && !(hi
            == misc_byte(ch) && lo == 0x24),
        Code::Text { a, b } => 0x20 <= a <= 0x7F && (b == 0 || 0x20 <= b <= 0x7F),
    }
}

spec fn all_plain(ch: Channel, codes: Seq<Code>) -> bool {
    forall|k: int| 0 <= k < codes.len() ==> plain(ch, #[trigger] codes[k])
}

/// What the receiver heard last is what the encoder queued last, as far as it
/// could be taken for a repetition.
pub open spec fn in_step(e: Encoder608, rx: Receiver) -> bool {
    rx.last matches Some(l) ==> e.last == Some((with_parity(l.0), with_parity(l.1)))
}

proof fn lemma_stripped(b: u8)
    requires
        b < 0x80,
    ensures
        with_parity(b) & 0x7F == b,
{
    law_parity_is_odd(b);
    assert(b < 0x80 ==> b & 0x7F == b) by (bit_vector);
}

proof fn lemma_heard_adds(rx: Receiver, ch: Channel, a: Seq<Pair>, b: Seq<Pair>)
    ensures
        heard(rx, ch, a + b) == heard(heard(rx, ch, a), ch, b),
    decreases b.len(),
{
    if b.len() == 0 {
        assert(a + b =~= a);
    } else {
        lemma_heard_adds(rx, ch, a, b.drop_last());
        assert((a + b).drop_last() =~= a + b.drop_last());
    }
}

proof fn lemma_heard_two(rx: Receiver, ch: Channel, p: Pair, q: Pair)
    ensures
        heard(rx, ch, seq![p]) == rx.hear(ch, p),
        heard(rx, ch, seq![p, q]) == rx.hear(ch, p).hear(ch, q),
{
    assert(seq![p].drop_last() =~= seq![]);
    assert(heard(rx, ch, seq![p].drop_last()) == rx);
    assert(seq![p, q].drop_last() =~= seq![p]);
}

proof fn lemma_doubled(rx: Receiver, ch: Channel, hi: u8, lo: u8, first: Pair, again: Pair)
    requires
        0x10 <= hi <= 0x1F,
        lo < 0x80,
        first.hi == with_parity(hi) && first.lo == with_parity(lo),
        again.hi == with_parity(hi) && again.lo == with_parity(lo),
        rx.last != Some((hi, lo)),
    ensures
        heard(rx, ch, seq![first, again]) == (Receiver {
            last: Some((hi, lo)),
            ..rx.obey(ch, hi as int, lo as int)
        }),
{
    lemma_stripped(hi);
    lemma_stripped(lo);
    lemma_heard_two(rx, ch, first, again);
}

/// One code, sent by the encoder and heard by the receiver.
proof fn lemma_code_heard(e: Encoder608, rx: Receiver, code: Code)
    requires
        in_step(e, rx),
        plain(e.channel, code),
    ensures
        ({
            let after = e.sent(code);
            let new = after.queue.skip(e.queue.len() as int);
            &&& after.queue.len() >= e.queue.len()
            &&& after.queue == e.queue + new
            &&& heard(rx, e.channel, new) == acted(rx, e.channel, code)
            &&& in_step(after, acted(rx, e.channel, code))
            &&& after.set_like(e)
        }),
{
    reveal(Encoder608::sent);
    let ch = e.channel;
    let after = e.sent(code);
    let new = after.queue.skip(e.queue.len() as int);
    match code {
        Code::Control { hi, lo, boundary } => {
            let pair = parity_pair(hi, lo, boundary);
            let again = parity_pair(hi, lo, false);
            if e.last == Some((pair.hi, pair.lo)) {
                let der = parity_pair(ch.misc(), 0x24, false);
                assert(new =~= seq![der, der] + seq![pair, again]);
                lemma_heard_adds(rx, ch, seq![der, der], seq![pair, again]);
                lemma_stripped(hi);
                lemma_stripped(lo);
                lemma_stripped(ch.misc());
                lemma_stripped(0x24);
                assert(rx.last != Some((ch.misc(), 0x24u8))) by {
                    if rx.last == Some((ch.misc(), 0x24u8)) {
                        assert(pair.lo == with_parity(0x24) && pair.hi == with_parity(ch.misc()));
                    }
                }
                lemma_doubled(rx, ch, ch.misc(), 0x24, der, der);
                let mid = Receiver { last: Some((ch.misc(), 0x24u8)), ..rx };
                assert(heard(rx, ch, seq![der, der]) == mid);
                lemma_doubled(mid, ch, hi, lo, pair, again);
                assert(mid.obey(ch, hi as int, lo as int) =~= (Receiver {
                    last: Some((ch.misc(), 0x24u8)),
                    ..rx.obey(ch, hi as int, lo as int)
                }));
            } else {
                assert(new =~= seq![pair, again]);
                lemma_doubled(rx, ch, hi, lo, pair, again);
            }
        },
        Code::Text { a, b } => {
            let pair = parity_pair(a, b, false);
            assert(new =~= seq![pair]);
            lemma_stripped(a);
            lemma_stripped(b);
            lemma_heard_two(rx, ch, pair, pair);
        },
    }
    assert(after.queue =~= e.queue + new);
}

proof fn lemma_codes_heard(e: Encoder608, rx: Receiver, codes: Seq<Code>)
    requires
        in_step(e, rx),
        all_plain(e.channel, codes),
    ensures
        ({
            let after = e.sent_all(codes);
            let new = after.queue.skip(e.queue.len() as int);
            &&& after.queue.len() >= e.queue.len()
            &&& after.queue == e.queue + new
            &&& heard(rx, e.channel, new) == acted_all(rx, e.channel, codes)
            &&& in_step(after, acted_all(rx, e.channel, codes))
        }),
    decreases codes.len(),
{
    let n = e.queue.len() as int;
    if codes.len() == 0 {
        assert(e.queue.skip(n) =~= seq![]);
        assert(e.queue =~= e.queue + e.queue.skip(n));
    } else {
        let ch = e.channel;
        assert(plain(ch, codes[0]));
        lemma_code_heard(e, rx, codes[0]);
        let next = e.sent(codes[0]);
        let rest = codes.drop_first();
        assert forall|k: int| 0 <= k < rest.len() implies plain(ch, #[trigger] rest[k]) by {
            assert(rest[k] == codes[k + 1]);
        }
        lemma_codes_heard(next, acted(rx, ch, codes[0]), rest);
        let after = e.sent_all(codes);
        let first = next.queue.skip(n);
        let second = after.queue.skip(next.queue.len() as int);
        assert(after.queue =~= e.queue + (first + second));
        assert(after.queue.skip(n) =~= first + second);
        lemma_heard_adds(rx, ch, first, second);
    }
}

proof fn lemma_acted_adds(rx: Receiver, ch: Channel, a: Seq<Code>, b: Seq<Code>)
    ensures
        acted_all(rx, ch, a + b) == acted_all(acted_all(rx, ch, a), ch, b),
    decreases a.len(),
{
    if a.len() == 0 {
        assert(a + b =~= b);
    } else {
        lemma_acted_adds(acted(rx, ch, a[0]), ch, a.drop_first(), b);
        assert((a + b).drop_first() =~= a.drop_first() + b);
        assert((a + b)[0] == a[0]);
    }
}

proof fn lemma_acted_few(rx: Receiver, ch: Channel, a: Code, b: Code)
    ensures
        acted_all(rx, ch, seq![a]) == acted(rx, ch, a),
        acted_all(rx, ch, seq![a, b]) == acted(acted(rx, ch, a), ch, b),
{
    reveal_with_fuel(acted_all, 3);
    assert(seq![a].drop_first() =~= seq![]);
    assert(seq![a, b].drop_first() =~= seq![b]);
    assert(seq![b].drop_first() =~= seq![]);
}

/// The text at the cursor.
spec fn written(rx: Receiver) -> Seq<Glyph> {
    match rx.style {
        Style::Idle => seq![],
        Style::Roll(_) => rx.rolled.last(),
        Style::Pop => rx.back[rx.row],
        Style::Paint => rx.front[rx.row],
    }
}

/// The receiver with another text at the cursor.
spec fn with_text(rx: Receiver, text: Seq<Glyph>) -> Receiver {
    match rx.style {
        Style::Idle => rx,
        Style::Roll(_) => Receiver {
            rolled: rx.rolled.update(rx.rolled.len() - 1, text),
            ..rx
        },
        Style::Pop => Receiver { back: rx.back.update(rx.row, text), ..rx },
        Style::Paint => Receiver { front: rx.front.update(rx.row, text), ..rx },
    }
}

/// Text can be written.
spec fn open_for_text(rx: Receiver) -> bool {
    match rx.style {
        Style::Idle => false,
        Style::Roll(_) => rx.rolled.len() > 0,
        _ => 0 <= rx.row < 16 && rx.front.len() == 16 && rx.back.len() == 16,
    }
}

proof fn lemma_put(rx: Receiver, g: Glyph)
    requires
        open_for_text(rx),
    ensures
        rx.put(g) == with_text(rx, written(rx).push(g)),
        open_for_text(rx.put(g)),
        written(rx.put(g)) == written(rx).push(g),
        rx.put(g).last == rx.last,
{
}

proof fn lemma_with_text(rx: Receiver, a: Seq<Glyph>, b: Seq<Glyph>)
    requires
        open_for_text(rx),
    ensures
        open_for_text(with_text(rx, a)),
        written(with_text(rx, a)) == a,
        with_text(with_text(rx, a), b) == with_text(rx, b),
        with_text(rx, written(rx)) == rx,
{
    assert(with_text(with_text(rx, a), b) =~= with_text(rx, b));
    assert(with_text(rx, written(rx)) =~= rx);
}

spec fn unlast(rx: Receiver) -> Receiver {
    Receiver { last: None, ..rx }
}

proof fn lemma_bits(ch: Channel)
    ensures
        0x11u8 | ch.bit() == 0x11 + second(ch),
        0x12u8 | ch.bit() == 0x12 + second(ch),
        0x13u8 | ch.bit() == 0x13 + second(ch),
        ch.misc() == misc_byte(ch),
{
    assert(0x11u8 | 0u8 == 0x11 && 0x12u8 | 0u8 == 0x12 && 0x13u8 | 0u8 == 0x13 && 0x11u8 | 8u8
        == 0x19 && 0x12u8 | 8u8 == 0x1A && 0x13u8 | 8u8 == 0x1B) by (bit_vector);
}

/// What is still to come of a line, an open character before it.
spec fn pending_glyphs(pending: Option<u8>) -> Seq<Glyph> {
    match pending {
        Some(p) => seq![Glyph { set: 0, code: p }],
        None => seq![],
    }
}

#[verifier::rlimit(80)]
proof fn lemma_text_acts(rx: Receiver, ch: Channel, line: Seq<Cell>, pending: Option<u8>)
    requires
        open_for_text(rx),
        all_printable(line),
        pending matches Some(p) ==> 0x20 <= p <= 0x7F,
    ensures
        all_plain(ch, text_codes(line, pending, ch.bit())),
        unlast(acted_all(rx, ch, text_codes(line, pending, ch.bit()))) == unlast(
            with_text(rx, written(rx) + pending_glyphs(pending) + glyphs(line)),
        ),
    decreases line.len(),
{
    let bit = ch.bit();
    let codes = text_codes(line, pending, bit);
    let want = written(rx) + pending_glyphs(pending) + glyphs(line);
    lemma_bits(ch);
    if line.len() == 0 {
        match pending {
            Some(p) => {
                let c = Code::Text { a: p, b: 0 };
                lemma_acted_few(rx, ch, c, c);
                lemma_put(rx, Glyph { set: 0, code: p });
                assert(want =~= written(rx).push(Glyph { set: 0, code: p }));
            },
            None => {
                assert(want =~= written(rx));
                lemma_with_text(rx, want, want);
            },
        }
    } else {
        let rest = line.drop_first();
        assert(printable(line[0]));
        assert forall|k: int| 0 <= k < rest.len() implies printable(#[trigger] rest[k]) by {
            assert(rest[k] == line[k + 1]);
        }
        assert(glyphs(line) =~= seq![glyph(line[0])] + glyphs(rest));
        match line[0] {
            Cell::Basic(c) => match pending {
                Some(p) => {
                    let code = Code::Text { a: p, b: c };
                    let next = acted(rx, ch, code);
                    lemma_acted_few(rx, ch, code, code);
                    lemma_acted_adds(rx, ch, seq![code], text_codes(rest, None, bit));
                    let g = Glyph { set: 0, code: p };
                    let h = Glyph { set: 0, code: c };
                    lemma_put(rx, g);
                    lemma_put(Receiver { last: None, ..rx.put(g) }, h);
                    lemma_text_acts(next, ch, rest, None);
                    assert(written(next) =~= written(rx).push(g).push(h));
                    assert(written(next) + pending_glyphs(None) + glyphs(rest) =~= want);
                    assert(unlast(next) =~= unlast(with_text(rx, written(next))));
                    lemma_same_place(rx, next, want);
                },
                None => {
                    lemma_text_acts(rx, ch, rest, Some(c));
                    assert(written(rx) + pending_glyphs(Some(c)) + glyphs(rest) =~= want);
                },
            },
            Cell::Special(lo) => {
                let code = Code::Control { hi: 0x11 | bit, lo, boundary: false };
                let g = Glyph { set: 0x11, code: lo };
                match pending {
                    Some(p) => {
                        let first = Code::Text { a: p, b: 0 };
                        lemma_acted_few(rx, ch, first, code);
                        lemma_acted_adds(rx, ch, seq![first, code], text_codes(rest, None, bit));
                        let one = acted(rx, ch, first);
                        let two = acted(one, ch, code);
                        let f = Glyph { set: 0, code: p };
                        lemma_put(rx, f);
                        lemma_put(one, g);
                        lemma_text_acts(two, ch, rest, None);
                        assert(written(two) =~= written(rx).push(f).push(g));
                        assert(written(two) + pending_glyphs(None) + glyphs(rest) =~= want);
                        assert(unlast(two) =~= unlast(with_text(rx, written(two))));
                        lemma_same_place(rx, two, want);
                    },
                    None => {
                        lemma_acted_few(rx, ch, code, code);
                        lemma_acted_adds(rx, ch, seq![code], text_codes(rest, None, bit));
                        let two = acted(rx, ch, code);
                        lemma_put(rx, g);
                        lemma_text_acts(two, ch, rest, None);
                        assert(written(two) =~= written(rx).push(g));
                        assert(written(two) + pending_glyphs(None) + glyphs(rest) =~= want);
                        assert(unlast(two) =~= unlast(with_text(rx, written(two))));
                        lemma_same_place(rx, two, want);
                    },
                }
            },
            Cell::Extended { set, lo, base } => {
                let code = Code::Control { hi: set | bit, lo, boundary: false };
                let g = Glyph { set, code: lo };
                let first = match pending {
                    Some(p) => Code::Text { a: p, b: base },
                    None => Code::Text { a: base, b: 0 },
                };
                lemma_acted_few(rx, ch, first, code);
                lemma_acted_adds(rx, ch, seq![first, code], text_codes(rest, None, bit));
                let one = acted(rx, ch, first);
                let two = acted(one, ch, code);
                let f = Glyph { set: 0, code: base };
                match pending {
                    Some(p) => {
                        let q = Glyph { set: 0, code: p };
                        lemma_put(rx, q);
                        lemma_put(Receiver { last: None, ..rx.put(q) }, f);
                        assert(written(one) =~= (written(rx) + pending_glyphs(pending)).push(f));
                    },
                    None => {
                        lemma_put(rx, f);
                        assert(written(one) =~= (written(rx) + pending_glyphs(pending)).push(f));
                    },
                }
                let held = written(rx) + pending_glyphs(pending);
                assert(open_for_text(one.step_back()));
                assert(written(one.step_back()) =~= held);
                lemma_put(one.step_back(), g);
                assert(written(two) =~= held.push(g));
                assert(open_for_text(two));
                lemma_text_acts(two, ch, rest, None);
                assert(written(two) + pending_glyphs(None) + glyphs(rest) =~= want);
                assert(unlast(two) =~= unlast(with_text(rx, written(two))));
                lemma_same_place(rx, two, want);
            },
        }
        assert forall|k: int| 0 <= k < codes.len() implies plain(ch, #[trigger] codes[k]) by {
            let tail = text_codes(
                rest,
                match line[0] {
                    Cell::Basic(c) => if pending is None {
                        Some(c)
                    } else {
                        None
                    },
                    _ => None,
                },
                bit,
            );
            let n = codes.len() - tail.len();
            if k >= n {
                assert(codes[k] == tail[k - n]);
            }
        }
    }
}

/// Two receivers that differ only in the text at the cursor.
proof fn lemma_same_place(a: Receiver, b: Receiver, text: Seq<Glyph>)
    requires
        open_for_text(a),
        unlast(b) == unlast(with_text(a, written(b))),
    ensures
        unlast(with_text(a, text)) == unlast(with_text(b, text)),
{
    assert(unlast(with_text(a, text)) =~= unlast(with_text(b, text)));
}

proof fn lemma_row_code(ch: Channel, row: int)
    requires
        1 <= row <= 15,
    ensures
        ({
            let code = pac_code(ch, row as u8, 0);
            &&& 0x10 <= code.0 <= 0x1F
            &&& 0x40 <= code.1 <= 0x7F
            &&& addressed_row(code.0 - second(ch), code.1 as int) == row
        }),
{
    assert(0x10u8 | 0u8 == 0x10 && 0x11u8 | 0u8 == 0x11 && 0x12u8 | 0u8 == 0x12 && 0x13u8 | 0u8
        == 0x13 && 0x14u8 | 0u8 == 0x14 && 0x15u8 | 0u8 == 0x15 && 0x16u8 | 0u8 == 0x16 && 0x17u8
        | 0u8 == 0x17 && 0x10u8 | 8u8 == 0x18 && 0x11u8 | 8u8 == 0x19 && 0x12u8 | 8u8 == 0x1A
        && 0x13u8 | 8u8 == 0x1B && 0x14u8 | 8u8 == 0x1C && 0x15u8 | 8u8 == 0x1D && 0x16u8 | 8u8
        == 0x1E && 0x17u8 | 8u8 == 0x1F && (0x40u8 | 0x10u8) | 0u8 == 0x50 && (0x60u8 | 0x10u8)
        | 0u8 == 0x70) by (bit_vector);
}

/// A line on a row of its own.
proof fn lemma_row_acts(e: Encoder608, rx: Receiver, row: int, line: Seq<Cell>)
    requires
        1 <= row <= 15,
        open_for_text(Receiver { row, ..rx }),
        all_printable(line),
    ensures
        all_plain(e.channel, e.row_codes(row, line)),
        ({
            let at = Receiver { row, ..rx };
            unlast(acted_all(rx, e.channel, e.row_codes(row, line))) == unlast(
                with_text(at, written(at) + glyphs(line)),
            )
        }),
{
    let ch = e.channel;
    let start = e.row_start(row);
    let text = text_codes(line, None, ch.bit());
    lemma_row_code(ch, row);
    lemma_acted_few(rx, ch, start, start);
    lemma_acted_adds(rx, ch, seq![start], text);
    let at = Receiver { row, ..rx };
    let one = acted(rx, ch, start);
    assert(unlast(one) == unlast(at));
    lemma_text_acts(one, ch, line, None);
    assert(written(one) == written(at));
    assert(written(at) + pending_glyphs(None) + glyphs(line) =~= written(at) + glyphs(line));
    let codes = e.row_codes(row, line);
    assert forall|k: int| 0 <= k < codes.len() implies plain(ch, #[trigger] codes[k]) by {
        if k > 0 {
            assert(codes[k] == text[k - 1]);
        }
    }
}

/// A memory with lines added on consecutive rows, the last one on the base row.
spec fn with_lines(mem: Seq<Seq<Glyph>>, base: int, lines: Seq<Seq<Cell>>) -> Seq<Seq<Glyph>> {
    Seq::new(
        mem.len(),
        |r: int|
            if base - lines.len() < r <= base {
                mem[r] + glyphs(lines[r - (base + 1 - lines.len())])
            } else {
                mem[r]
            },
    )
}

spec fn lines_printable(lines: Seq<Seq<Cell>>) -> bool {
    forall|k: int| 0 <= k < lines.len() ==> all_printable(#[trigger] lines[k])
}

/// The row and the last code do not count.
spec fn unplaced(rx: Receiver) -> Receiver {
    Receiver { last: None, row: 0, ..rx }
}

proof fn lemma_block_acts(e: Encoder608, rx: Receiver, lines: Seq<Seq<Cell>>)
    requires
        4 <= e.base_row <= 15,
        lines.len() <= 4,
        lines_printable(lines),
        rx.style is Pop || rx.style is Paint,
        rx.front.len() == 16 && rx.back.len() == 16,
    ensures
        all_plain(e.channel, e.block_codes(lines)),
        ({
            let after = acted_all(rx, e.channel, e.block_codes(lines));
            let base = e.base_row as int;
            unplaced(after) == unplaced(
                if rx.style is Pop {
                    Receiver { back: with_lines(rx.back, base, lines), ..rx }
                } else {
                    Receiver { front: with_lines(rx.front, base, lines), ..rx }
                },
            )
        }),
    decreases lines.len(),
{
    let ch = e.channel;
    let base = e.base_row as int;
    let codes = e.block_codes(lines);
    if lines.len() == 0 {
        assert(with_lines(rx.back, base, lines) =~= rx.back);
        assert(with_lines(rx.front, base, lines) =~= rx.front);
    } else {
        let row = base + 1 - lines.len();
        let rest = lines.drop_first();
        let first = e.row_codes(row, lines[0]);
        assert(all_printable(lines[0]));
        assert forall|k: int| 0 <= k < rest.len() implies all_printable(#[trigger] rest[k]) by {
            assert(rest[k] == lines[k + 1]);
        }
        lemma_row_acts(e, rx, row, lines[0]);
        let next = acted_all(rx, ch, first);
        lemma_acted_adds(rx, ch, first, e.block_codes(rest));
        lemma_block_acts(e, next, rest);
        let tail = e.block_codes(rest);
        assert forall|k: int| 0 <= k < codes.len() implies plain(ch, #[trigger] codes[k]) by {
            if k < first.len() {
                assert(codes[k] == first[k]);
            } else {
                assert(codes[k] == tail[k - first.len()]);
            }
        }
        if rx.style is Pop {
            assert(with_lines(next.back, base, rest) =~= with_lines(rx.back, base, lines));
        } else {
            assert(with_lines(next.front, base, rest) =~= with_lines(rx.front, base, lines));
        }
    }
}

proof fn lemma_blank_lines(base: int, lines: Seq<Seq<Cell>>)
    ensures
        with_lines(blank(), base, lines) == screen(base, lines),
{
    let a = with_lines(blank(), base, lines);
    let b = screen(base, lines);
    assert forall|r: int| 0 <= r < 16 implies #[trigger] a[r] =~= b[r] by {}
    assert(a =~= b);
}

/// Codes that are plain, one behind the other.
proof fn lemma_plain_adds(ch: Channel, a: Seq<Code>, b: Seq<Code>)
    requires
        all_plain(ch, a),
        all_plain(ch, b),
    ensures
        all_plain(ch, a + b),
{
    assert forall|k: int| 0 <= k < (a + b).len() implies plain(ch, #[trigger] (a + b)[k]) by {
        if k < a.len() {
            assert((a + b)[k] == a[k]);
        } else {
            assert((a + b)[k] == b[k - a.len()]);
        }
    }
}

/// One pop-on caption: cleared off screen, written there, swapped in.
proof fn lemma_pop_group(e: Encoder608, rx: Receiver, lines: Seq<Seq<Cell>>)
    requires
        4 <= e.base_row <= 15,
        lines.len() <= 4,
        lines_printable(lines),
        rx.front.len() == 16 && rx.back.len() == 16,
    ensures
        ({
            let codes = seq![e.control_code(0x20, true), e.control_code(0x2E, false)]
                + e.block_codes(lines) + seq![e.control_code(0x2F, false)];
            let after = acted_all(rx, e.channel, codes);
            let shown = screen(e.base_row as int, lines);
            &&& all_plain(e.channel, codes)
            &&& after.style is Pop
            &&& after.front == shown
            &&& after.back.len() == 16
            &&& after.screens == rx.screens.push(shown)
            &&& after.rolled == rx.rolled
        }),
{
    let ch = e.channel;
    lemma_bits(ch);
    let a = e.control_code(0x20, true);
    let b = e.control_code(0x2E, false);
    let c = e.control_code(0x2F, false);
    let block = e.block_codes(lines);
    lemma_acted_few(rx, ch, a, b);
    let two = acted_all(rx, ch, seq![a, b]);
    lemma_acted_adds(rx, ch, seq![a, b], block);
    lemma_block_acts(e, two, lines);
    lemma_blank_lines(e.base_row as int, lines);
    let mid = acted_all(two, ch, block);
    lemma_acted_adds(rx, ch, seq![a, b] + block, seq![c]);
    lemma_acted_few(mid, ch, c, c);
    assert(all_plain(ch, seq![a, b]));
    assert(all_plain(ch, seq![c]));
    lemma_plain_adds(ch, seq![a, b], block);
    lemma_plain_adds(ch, seq![a, b] + block, seq![c]);
    assert(unplaced(mid).back == mid.back);
    assert(unplaced(mid).front == mid.front);
    assert(unplaced(mid).style == mid.style);
    assert(unplaced(mid).screens == mid.screens);
    assert(unplaced(mid).rolled == mid.rolled);
}

proof fn lemma_pop_acts(e: Encoder608, rx: Receiver, lines: Seq<Seq<Cell>>)
    requires
        4 <= e.base_row <= 15,
        1 <= e.popon_rows <= 4,
        lines_printable(lines),
        rx.front.len() == 16 && rx.back.len() == 16,
    ensures
        ({
            let codes = e.pop_on_codes(lines);
            let after = acted_all(rx, e.channel, codes);
            let shown = screens_of(e.base_row as int, e.popon_rows as int, lines);
            &&& all_plain(e.channel, codes)
            &&& after.screens == rx.screens + shown
            &&& after.rolled == rx.rolled
            &&& lines.len() > 0 ==> after.front == shown.last() && after.style is Pop
            &&& after.front.len() == 16 && after.back.len() == 16
            &&& lines.len() > 0 ==> shown.len() > 0
        }),
    decreases lines.len(),
{
    let ch = e.channel;
    let base = e.base_row as int;
    let rows = e.popon_rows as int;
    if lines.len() == 0 {
        assert(rx.screens + screens_of(base, rows, lines) =~= rx.screens);
    } else {
        let n = if lines.len() < rows {
            lines.len() as int
        } else {
            rows
        };
        let now = lines.take(n);
        let rest = lines.skip(n);
        assert forall|k: int| 0 <= k < now.len() implies all_printable(#[trigger] now[k]) by {
            assert(now[k] == lines[k]);
        }
        assert forall|k: int| 0 <= k < rest.len() implies all_printable(#[trigger] rest[k]) by {
            assert(rest[k] == lines[k + n]);
        }
        let codes = seq![e.control_code(0x20, true), e.control_code(0x2E, false)] + e.block_codes(
            now,
        ) + seq![e.control_code(0x2F, false)];
        lemma_pop_group(e, rx, now);
        let next = acted_all(rx, ch, codes);
        lemma_pop_acts(e, next, rest);
        lemma_acted_adds(rx, ch, codes, e.pop_on_codes(rest));
        lemma_plain_adds(ch, codes, e.pop_on_codes(rest));
        assert(e.pop_on_codes(lines) =~= codes + e.pop_on_codes(rest));
        let shown = screens_of(base, rows, lines);
        if lines.len() <= rows {
            assert(now =~= lines);
            assert(rest =~= seq![]);
            assert(screens_of(base, rows, rest) =~= seq![]);
            assert(rx.screens.push(screen(base, lines)) + Seq::<Seq<Seq<Glyph>>>::empty()
                =~= rx.screens + shown);
            assert(e.pop_on_codes(rest) =~= seq![]);
        } else {
            assert(rx.screens.push(screen(base, now)) + screens_of(base, rows, rest) =~= rx.screens
                + shown);
        }
    }
}

/// A viewer of a pop-on caption sees its lines one above the other, in reading
/// order, the last one on the base row and nothing else; a caption of more lines
/// than fit is shown in groups, one after the other.
pub proof fn law_pop_on_is_seen(e: Encoder608, rx: Receiver, text: Seq<char>)
    requires
        e.wf(),
        e.mode is PopOn,
        in_step(e, rx),
        rx.front.len() == 16 && rx.back.len() == 16,
        cut_point(e.sent_all(e.pop_on_codes(text_lines_608(text))).queue) == 0,
    ensures
        ({
            let lines = text_lines_608(text);
            let after = e.captioned(text);
            let new = after.queue.skip(e.queue.len() as int);
            let seen = heard(rx, e.channel, new);
            let shown = screens_of(e.base_row as int, e.popon_rows as int, lines);
            &&& after.queue == e.queue + new
            &&& seen.screens == rx.screens + shown
            &&& 0 < lines.len() <= e.popon_rows ==> seen.front == screen(e.base_row as int, lines)
            &&& lines.len() > 0 ==> seen.front == shown.last()
            &&& in_step(after, seen)
        }),
{
    let lines = text_lines_608(text);
    let codes = e.pop_on_codes(lines);
    lemma_lines_are_printable(text);
    assert(lines_printable(lines));
    lemma_pop_acts(e, rx, lines);
    lemma_codes_heard(e, rx, codes);
    let full = e.sent_all(codes);
    assert(full.queue.skip(0) =~= full.queue);
    if lines.len() == 0 {
        assert(codes =~= seq![]);
    }
}

proof fn lemma_paint_group(e: Encoder608, rx: Receiver, lines: Seq<Seq<Cell>>)
    requires
        4 <= e.base_row <= 15,
        lines.len() <= 4,
        lines_printable(lines),
        rx.front.len() == 16 && rx.back.len() == 16,
    ensures
        ({
            let codes = seq![e.control_code(0x29, true), e.control_code(0x2C, false)]
                + e.block_codes(lines);
            let after = acted_all(rx, e.channel, codes);
            &&& all_plain(e.channel, codes)
            &&& after.style is Paint
            &&& after.front == screen(e.base_row as int, lines)
            &&& after.back == rx.back
            &&& after.screens == rx.screens.push(rx.front)
            &&& after.rolled == rx.rolled
        }),
{
    let ch = e.channel;
    lemma_bits(ch);
    let a = e.control_code(0x29, true);
    let b = e.control_code(0x2C, false);
    let block = e.block_codes(lines);
    lemma_acted_few(rx, ch, a, b);
    let two = acted_all(rx, ch, seq![a, b]);
    lemma_acted_adds(rx, ch, seq![a, b], block);
    lemma_block_acts(e, two, lines);
    lemma_blank_lines(e.base_row as int, lines);
    let mid = acted_all(two, ch, block);
    assert(all_plain(ch, seq![a, b]));
    lemma_plain_adds(ch, seq![a, b], block);
    assert(unplaced(mid).back == mid.back);
    assert(unplaced(mid).front == mid.front);
    assert(unplaced(mid).style == mid.style);
    assert(unplaced(mid).screens == mid.screens);
    assert(unplaced(mid).rolled == mid.rolled);
}

proof fn lemma_paint_acts(e: Encoder608, rx: Receiver, lines: Seq<Seq<Cell>>)
    requires
        4 <= e.base_row <= 15,
        1 <= e.popon_rows <= 4,
        lines_printable(lines),
        rx.front.len() == 16 && rx.back.len() == 16,
    ensures
        ({
            let codes = e.paint_on_codes(lines);
            let after = acted_all(rx, e.channel, codes);
            let shown = screens_of(e.base_row as int, e.popon_rows as int, lines);
            &&& all_plain(e.channel, codes)
            &&& after.screens.push(after.front) == rx.screens.push(rx.front) + shown
            &&& after.front.len() == 16 && after.back.len() == 16
            &&& lines.len() > 0 ==> shown.len() > 0 && after.front == shown.last()
                && after.style is Paint
        }),
    decreases lines.len(),
{
    let ch = e.channel;
    let base = e.base_row as int;
    let rows = e.popon_rows as int;
    if lines.len() == 0 {
        assert(rx.screens.push(rx.front) + screens_of(base, rows, lines) =~= rx.screens.push(
            rx.front,
        ));
    } else {
        let n = if lines.len() < rows {
            lines.len() as int
        } else {
            rows
        };
        let now = lines.take(n);
        let rest = lines.skip(n);
        assert forall|k: int| 0 <= k < now.len() implies all_printable(#[trigger] now[k]) by {
            assert(now[k] == lines[k]);
        }
        assert forall|k: int| 0 <= k < rest.len() implies all_printable(#[trigger] rest[k]) by {
            assert(rest[k] == lines[k + n]);
        }
        let codes = seq![e.control_code(0x29, true), e.control_code(0x2C, false)] + e.block_codes(
            now,
        );
        lemma_paint_group(e, rx, now);
        let next = acted_all(rx, ch, codes);
        lemma_paint_acts(e, next, rest);
        lemma_acted_adds(rx, ch, codes, e.paint_on_codes(rest));
        lemma_plain_adds(ch, codes, e.paint_on_codes(rest));
        assert(e.paint_on_codes(lines) =~= codes + e.paint_on_codes(rest));
        let shown = screens_of(base, rows, lines);
        if lines.len() <= rows {
            assert(now =~= lines);
            assert(rest =~= seq![]);
            assert(screens_of(base, rows, rest) =~= seq![]);
            assert(e.paint_on_codes(rest) =~= seq![]);
            assert(rx.screens.push(rx.front).push(screen(base, lines)) =~= rx.screens.push(rx.front)
                + shown);
        } else {
            assert(rx.screens.push(rx.front).push(screen(base, now)) + screens_of(base, rows, rest)
                =~= rx.screens.push(rx.front) + shown);
        }
    }
}

/// A viewer of a paint-on caption sees its lines one above the other on a screen
/// that was cleared, the last one on the base row; a caption of more lines than
/// fit is painted in groups, each on a cleared screen.
pub proof fn law_paint_on_is_seen(e: Encoder608, rx: Receiver, text: Seq<char>)
    requires
        e.wf(),
        e.mode is PaintOn,
        in_step(e, rx),
        rx.front.len() == 16 && rx.back.len() == 16,
        cut_point(e.sent_all(e.paint_on_codes(text_lines_608(text))).queue) == 0,
    ensures
        ({
            let lines = text_lines_608(text);
            let after = e.captioned(text);
            let new = after.queue.skip(e.queue.len() as int);
            let seen = heard(rx, e.channel, new);
            let shown = screens_of(e.base_row as int, e.popon_rows as int, lines);
            &&& after.queue == e.queue + new
            &&& seen.screens.push(seen.front) == rx.screens.push(rx.front) + shown
            &&& 0 < lines.len() <= e.popon_rows ==> seen.front == screen(e.base_row as int, lines)
            &&& lines.len() > 0 ==> seen.front == shown.last()
            &&& in_step(after, seen)
        }),
{
    let lines = text_lines_608(text);
    let codes = e.paint_on_codes(lines);
    lemma_lines_are_printable(text);
    assert(lines_printable(lines));
    lemma_paint_acts(e, rx, lines);
    lemma_codes_heard(e, rx, codes);
    let full = e.sent_all(codes);
    assert(full.queue.skip(0) =~= full.queue);
    if lines.len() == 0 {
        assert(codes =~= seq![]);
    }
}

proof fn lemma_roll_line(e: Encoder608, rx: Receiver, rows: u8, line: Seq<Cell>)
    requires
        4 <= e.base_row <= 15,
        2 <= rows <= 4,
        all_printable(line),
    ensures
        ({
            let codes = seq![
                e.control_code((0x25 + rows - 2) as u8, true),
                e.control_code(0x2D, false),
            ] + e.row_codes(e.base_row as int, line);
            let after = acted_all(rx, e.channel, codes);
            &&& all_plain(e.channel, codes)
            &&& after.style == Style::Roll(rows as int)
            &&& after.row == e.base_row
            &&& after.rolled == rx.rolled.push(glyphs(line))
            &&& after.front == rx.front && after.back == rx.back && after.screens == rx.screens
        }),
{
    let ch = e.channel;
    lemma_bits(ch);
    let a = e.control_code((0x25 + rows - 2) as u8, true);
    let b = e.control_code(0x2D, false);
    let row = e.row_codes(e.base_row as int, line);
    lemma_acted_few(rx, ch, a, b);
    let two = acted_all(rx, ch, seq![a, b]);
    lemma_row_acts(e, two, e.base_row as int, line);
    lemma_acted_adds(rx, ch, seq![a, b], row);
    assert(all_plain(ch, seq![a, b]));
    lemma_plain_adds(ch, seq![a, b], row);
    let at = Receiver { row: e.base_row as int, ..two };
    assert(written(at) =~= seq![]);
    assert(written(at) + glyphs(line) =~= glyphs(line));
    let after = acted_all(two, ch, row);
    let want = with_text(at, glyphs(line));
    assert(want.rolled =~= rx.rolled.push(glyphs(line)));
    assert(unlast(after).rolled == after.rolled && unlast(after).style == after.style && unlast(
        after,
    ).row == after.row && unlast(after).front == after.front && unlast(after).back == after.back
        && unlast(after).screens == after.screens);
}

proof fn lemma_roll_acts(e: Encoder608, rx: Receiver, rows: u8, lines: Seq<Seq<Cell>>)
    requires
        4 <= e.base_row <= 15,
        2 <= rows <= 4,
        lines_printable(lines),
    ensures
        ({
            let codes = e.roll_up_codes(rows, lines);
            let after = acted_all(rx, e.channel, codes);
            &&& all_plain(e.channel, codes)
            &&& after.rolled == rx.rolled + rolled_of(lines)
            &&& lines.len() > 0 ==> after.style == Style::Roll(rows as int) && after.row
                == e.base_row
            &&& after.front == rx.front && after.back == rx.back && after.screens == rx.screens
        }),
    decreases lines.len(),
{
    let ch = e.channel;
    if lines.len() == 0 {
        assert(rx.rolled + rolled_of(lines) =~= rx.rolled);
    } else {
        let rest = lines.drop_first();
        assert(all_printable(lines[0]));
        assert forall|k: int| 0 <= k < rest.len() implies all_printable(#[trigger] rest[k]) by {
            assert(rest[k] == lines[k + 1]);
        }
        let codes = seq![
            e.control_code((0x25 + rows - 2) as u8, true),
            e.control_code(0x2D, false),
        ] + e.row_codes(e.base_row as int, lines[0]);
        lemma_roll_line(e, rx, rows, lines[0]);
        let next = acted_all(rx, ch, codes);
        lemma_roll_acts(e, next, rows, rest);
        lemma_acted_adds(rx, ch, codes, e.roll_up_codes(rows, rest));
        lemma_plain_adds(ch, codes, e.roll_up_codes(rows, rest));
        assert(e.roll_up_codes(rows, lines) =~= codes + e.roll_up_codes(rows, rest));
        assert(rx.rolled.push(glyphs(lines[0])) + rolled_of(rest) =~= rx.rolled + rolled_of(lines));
        if rest.len() == 0 {
            assert(e.roll_up_codes(rows, rest) =~= seq![]);
        }
    }
}

/// A viewer of a roll-up caption sees its lines roll in, one after the other and
/// each on the base row, in a window of as many rows as the mode has.
pub proof fn law_roll_up_is_seen(e: Encoder608, rx: Receiver, text: Seq<char>, rows: u8)
    requires
        e.wf(),
        e.mode == Mode608::RollUp(rows),
        in_step(e, rx),
        cut_point(e.sent_all(e.roll_up_codes(rows, text_lines_608(text))).queue) == 0,
    ensures
        ({
            let lines = text_lines_608(text);
            let after = e.captioned(text);
            let new = after.queue.skip(e.queue.len() as int);
            let seen = heard(rx, e.channel, new);
            &&& after.queue == e.queue + new
            &&& seen.rolled == rx.rolled + rolled_of(lines)
            &&& lines.len() > 0 ==> seen.style == Style::Roll(rows as int) && seen.row
                == e.base_row
            &&& seen.front == rx.front && seen.screens == rx.screens
            &&& in_step(after, seen)
        }),
{
    let lines = text_lines_608(text);
    let codes = e.roll_up_codes(rows, lines);
    lemma_lines_are_printable(text);
    assert(lines_printable(lines));
    lemma_roll_acts(e, rx, rows, lines);
    lemma_codes_heard(e, rx, codes);
    let full = e.sent_all(codes);
    assert(full.queue.skip(0) =~= full.queue);
    if lines.len() == 0 {
        assert(codes =~= seq![]);
    }
}

/// An address code names its row, brought into 1-15, and an indent in steps of
/// four columns, at most 28, of white text; the second channel of a field carries
/// its bit.
pub proof fn law_address_codes_name_the_row(ch: Channel, row: u8, indent: u8)
    ensures
        ({
            let code = pac_code(ch, row, indent);
            let inside = if row < 1 {
                1int
            } else if row > 15 {
                15
            } else {
                row as int
            };
            &&& 0x10 <= code.0 - second(ch) <= 0x17
            &&& 0x40 <= code.1 <= 0x7F
            &&& addressed_row(code.0 - second(ch), code.1 as int) == inside
            &&& code.1 as int / 0x10 % 2 == 1
            &&& code.1 as int / 2 % 8 == (if indent > 28 {
                7int
            } else {
                indent as int / 4
            })
            &&& code.1 as int % 2 == 0
        }),
{
    let b = crate::cea608::indent_bits(indent);
    assert(b <= 14 && b % 2 == 0);
    assert(b <= 14 && b % 2 == 0 ==> (0x40u8 | 0x10u8) | b == 0x50 + b && (0x60u8 | 0x10u8) | b
        == 0x70 + b) by (bit_vector);
    assert(0x10u8 | 0u8 == 0x10 && 0x11u8 | 0u8 == 0x11 && 0x12u8 | 0u8 == 0x12 && 0x13u8 | 0u8
        == 0x13 && 0x14u8 | 0u8 == 0x14 && 0x15u8 | 0u8 == 0x15 && 0x16u8 | 0u8 == 0x16 && 0x17u8
        | 0u8 == 0x17 && 0x10u8 | 8u8 == 0x18 && 0x11u8 | 8u8 == 0x19 && 0x12u8 | 8u8 == 0x1A
        && 0x13u8 | 8u8 == 0x1B && 0x14u8 | 8u8 == 0x1C && 0x15u8 | 8u8 == 0x1D && 0x16u8 | 8u8
        == 0x1E && 0x17u8 | 8u8 == 0x1F) by (bit_vector);
}

} // verus!
