//! CEA-608 (line 21) caption encoder: roll-up, pop-on and paint-on on CC1-CC4.
//!
//! The encoder turns text into a queue of byte pairs (odd parity already set).
//! The caller drains one pair per field per frame with [`Cc608Encoder::next_pair`];
//! [`crate::mux::CcMux`] does that pacing for you.
use std::collections::VecDeque;
use vstd::prelude::*;

use crate::cc::{odd_parity, ones, with_parity, CcType, Channel};
use crate::charset::Cell;
use crate::counter::{count, counted};
use crate::text::{cells_608, items_608, line_shapes, shapes, wrap, wrapped};

verus! {

/// Characters per caption row.
pub const COLUMNS: usize = 32;

/// Maximum queued byte pairs per encoder (~30 s at 30 fps). When exceeded, the
/// oldest whole lines are dropped so live captions never fall further behind.
pub const MAX_QUEUE_PAIRS: usize = 900;

/// Either byte of the null pair (0x00 0x00 with parity): padding that every
/// decoder ignores.
pub const NULL_BYTE: u8 = 0x80;

/// Miscellaneous control codes (second byte; first byte depends on channel).
pub const RCL: u8 = 0x20;

pub const BS: u8 = 0x21;

pub const DER: u8 = 0x24;

pub const RU2: u8 = 0x25;

pub const RDC: u8 = 0x29;

pub const EDM: u8 = 0x2C;

pub const CR: u8 = 0x2D;

pub const ENM: u8 = 0x2E;

pub const EOC: u8 = 0x2F;

/// Caption display style.
#[derive(Clone, Copy, Debug, PartialEq, Eq, Structural)]
pub enum Mode608 {
    /// Roll-up with 2, 3 or 4 visible rows (RU2/RU3/RU4). Other values are clamped.
    RollUp(u8),
    /// Pop-on: build the caption off screen (RCL/ENM), then swap it in (EOC).
    PopOn,
    /// Paint-on: characters appear as they arrive (RDC).
    PaintOn,
}

/// A mode with its number of roll-up rows brought into 2-4.
pub open spec fn normal_mode(mode: Mode608) -> Mode608 {
    match mode {
        Mode608::RollUp(n) => Mode608::RollUp(
            if n < 2 {
                2
            } else if n > 4 {
                4
            } else {
                n
            },
        ),
        m => m,
    }
}

fn normalize(mode: Mode608) -> (r: Mode608)
    ensures
        r == normal_mode(mode),
{
    match mode {
        Mode608::RollUp(n) => if n < 2 {
            Mode608::RollUp(2)
        } else if n > 4 {
            Mode608::RollUp(4)
        } else {
            Mode608::RollUp(n)
        },
        m => m,
    }
}

impl Channel {
    /// First byte of miscellaneous control codes.
    pub open spec fn misc(self) -> u8 {
        match self {
            Channel::Cc1 => 0x14,
            Channel::Cc2 => 0x1C,
            Channel::Cc3 => 0x15,
            Channel::Cc4 => 0x1D,
        }
    }

    /// The bit that control codes of the second channel of a field carry.
    pub open spec fn bit(self) -> u8 {
        match self {
            Channel::Cc1 | Channel::Cc3 => 0,
            Channel::Cc2 | Channel::Cc4 => 0x08,
        }
    }

    /// First byte of miscellaneous control codes (RCL, CR, EOC, ...): CC1 0x14,
    /// CC2 0x1C, CC3 0x15, CC4 0x1D.
    pub fn misc_control_byte(self) -> (r: u8)
        ensures
            r == self.misc(),
    {
        match self {
            Channel::Cc1 => 0x14,
            Channel::Cc2 => 0x1C,
            Channel::Cc3 => 0x15,
            Channel::Cc4 => 0x1D,
        }
    }

    /// True for the second data channel of a field (CC2, CC4): control codes carry bit 0x08.
    pub fn is_second_in_field(self) -> (r: bool)
        ensures
            r == (self == Channel::Cc2 || self == Channel::Cc4),
    {
        matches!(self, Channel::Cc2 | Channel::Cc4)
    }

    /// The field that carries this channel.
    pub fn field(self) -> (r: CcType)
        ensures
            r == (if self == Channel::Cc1 || self == Channel::Cc2 {
                CcType::Field1
            } else {
                CcType::Field2
            }),
    {
        match self {
            Channel::Cc1 | Channel::Cc2 => CcType::Field1,
            Channel::Cc3 | Channel::Cc4 => CcType::Field2,
        }
    }

    fn chan_bit(self) -> (r: u8)
        ensures
            r == self.bit(),
    {
        if self.is_second_in_field() {
            0x08
        } else {
            0
        }
    }
}

/// The first byte and the second-byte base of a preamble address code, by row
/// (1-15).
pub open spec fn pac_row(row: u8) -> (u8, u8) {
    if row <= 1 {
        (0x11, 0x40)
    } else if row == 2 {
        (0x11, 0x60)
    } else if row == 3 {
        (0x12, 0x40)
    } else if row == 4 {
        (0x12, 0x60)
    } else if row == 5 {
        (0x15, 0x40)
    } else if row == 6 {
        (0x15, 0x60)
    } else if row == 7 {
        (0x16, 0x40)
    } else if row == 8 {
        (0x16, 0x60)
    } else if row == 9 {
        (0x17, 0x40)
    } else if row == 10 {
        (0x17, 0x60)
    } else if row == 11 {
        (0x10, 0x40)
    } else if row == 12 {
        (0x13, 0x40)
    } else if row == 13 {
        (0x13, 0x60)
    } else if row == 14 {
        (0x14, 0x40)
    } else {
        (0x14, 0x60)
    }
}

/// The indent bits of a preamble address code: columns in steps of four, at
/// most 28, one bit up.
pub open spec fn indent_bits(indent: u8) -> u8 {
    (2 * ((if indent > 28 { 28 } else { indent as int }) / 4)) as u8
}

/// The preamble address code for a row and indent, as its two bytes.
pub open spec fn pac_code(channel: Channel, row: u8, indent: u8) -> (u8, u8) {
    (pac_row(row).0 | channel.bit(), pac_row(row).1 | 0x10 | indent_bits(indent))
}

fn row_code(row: u8) -> (r: (u8, u8))
    ensures
        r == pac_row(row),
{
    if row <= 1 {
        (0x11, 0x40)
    } else if row == 2 {
        (0x11, 0x60)
    } else if row == 3 {
        (0x12, 0x40)
    } else if row == 4 {
        (0x12, 0x60)
    } else if row == 5 {
        (0x15, 0x40)
    } else if row == 6 {
        (0x15, 0x60)
    } else if row == 7 {
        (0x16, 0x40)
    } else if row == 8 {
        (0x16, 0x60)
    } else if row == 9 {
        (0x17, 0x40)
    } else if row == 10 {
        (0x17, 0x60)
    } else if row == 11 {
        (0x10, 0x40)
    } else if row == 12 {
        (0x13, 0x40)
    } else if row == 13 {
        (0x13, 0x60)
    } else if row == 14 {
        (0x14, 0x40)
    } else {
        (0x14, 0x60)
    }
}

/// Preamble address code for `row` (1-15) with white text indented `indent`
/// columns (rounded down to a multiple of 4, max 28). Parity not applied.
pub fn pac(channel: Channel, row: u8, indent: u8) -> (r: [u8; 2])
    ensures
        r@ == seq![pac_code(channel, row, indent).0, pac_code(channel, row, indent).1],
{
    let (hi, base): (u8, u8) = row_code(row);
    let columns: u8 = if indent > 28 { 28 } else { indent };
    let r = [hi | channel.chan_bit(), base | 0x10 | (2 * (columns / 4))];
    assert(r@ == seq![pac_code(channel, row, indent).0, pac_code(channel, row, indent).1]);
    r
}

/// One queued pair. `boundary` marks where another channel on the same field
/// may take over (the pair starts with a control code for this channel).
#[derive(Clone, Copy, Debug, PartialEq, Eq, Structural)]
pub struct Pair {
    pub hi: u8,
    pub lo: u8,
    pub boundary: bool,
}

/// Nothing waits, or the next pair starts a line.
pub open spec fn at_border(queue: Seq<Pair>) -> bool {
    queue.len() > 0 ==> queue[0].boundary
}

/// What a caption is made of, before parity and repetition.
pub enum Code {
    /// A control code, sent twice.
    Control { hi: u8, lo: u8, boundary: bool },
    /// Two characters, sent once.
    Text { a: u8, b: u8 },
}

/// The state of an encoder.
#[verifier::ext_equal]
pub struct Encoder608 {
    pub channel: Channel,
    pub mode: Mode608,
    pub base_row: u8,
    pub popon_rows: u8,
    /// Pairs waiting, oldest first.
    pub queue: Seq<Pair>,
    /// The pair queued last, sent or not.
    pub last: Option<(u8, u8)>,
    /// Pairs discarded because the queue was full.
    pub dropped: u64,
}

/// Two bytes with parity.
pub open spec fn parity_pair(hi: u8, lo: u8, boundary: bool) -> Pair {
    Pair { hi: with_parity(hi), lo: with_parity(lo), boundary }
}

impl Encoder608 {
    /// The encoder with one more code queued. A control code goes out twice, and
    /// behind a doubled DER if the same pair was queued just before it.
    #[verifier::opaque]
    pub open spec fn sent(self, code: Code) -> Encoder608 {
        match code {
            Code::Control { hi, lo, boundary } => {
                let pair = parity_pair(hi, lo, boundary);
                let again = parity_pair(hi, lo, false);
                let der = parity_pair(self.channel.misc(), DER, false);
                let gap = if self.last == Some((pair.hi, pair.lo)) {
                    seq![der, der]
                } else {
                    seq![]
                };
                Encoder608 {
                    queue: self.queue + gap + seq![pair, again],
                    last: Some((pair.hi, pair.lo)),
                    ..self
                }
            },
            Code::Text { a, b } => {
                let pair = parity_pair(a, b, false);
                Encoder608 { queue: self.queue.push(pair), last: Some((pair.hi, pair.lo)), ..self }
            },
        }
    }

    /// Channel, mode and rows are those of `other`.
    pub open spec fn set_like(self, other: Encoder608) -> bool {
        &&& self.channel == other.channel
        &&& self.mode == other.mode
        &&& self.base_row == other.base_row
        &&& self.popon_rows == other.popon_rows
    }

    /// The encoder with a run of codes queued.
    pub open spec fn sent_all(self, codes: Seq<Code>) -> Encoder608
        decreases codes.len(),
    {
        if codes.len() == 0 {
            self
        } else {
            self.sent(codes[0]).sent_all(codes.drop_first())
        }
    }

    /// A miscellaneous control code of this channel.
    pub open spec fn control_code(self, lo: u8, boundary: bool) -> Code {
        Code::Control { hi: self.channel.misc(), lo, boundary }
    }

    /// The preamble address code that starts `row`.
    pub open spec fn row_start(self, row: int) -> Code {
        let code = pac_code(self.channel, row as u8, 0);
        Code::Control { hi: code.0, lo: code.1, boundary: false }
    }

    /// A line with its row's address code before it.
    pub open spec fn row_codes(self, row: int, line: Seq<Cell>) -> Seq<Code> {
        seq![self.row_start(row)] + text_codes(line, None, self.channel.bit())
    }

    /// Lines on consecutive rows, the last one on the base row.
    pub open spec fn block_codes(self, lines: Seq<Seq<Cell>>) -> Seq<Code>
        decreases lines.len(),
    {
        if lines.len() == 0 {
            seq![]
        } else {
            self.row_codes(self.base_row + 1 - lines.len(), lines[0]) + self.block_codes(
                lines.drop_first(),
            )
        }
    }

    /// Roll-up lines: mode, carriage return and base row before each.
    pub open spec fn roll_up_codes(self, rows: u8, lines: Seq<Seq<Cell>>) -> Seq<Code>
        decreases lines.len(),
    {
        if lines.len() == 0 {
            seq![]
        } else {
            seq![
                self.control_code((RU2 + rows - 2) as u8, true),
                self.control_code(CR, false),
            ] + self.row_codes(self.base_row as int, lines[0]) + self.roll_up_codes(
                rows,
                lines.drop_first(),
            )
        }
    }

    /// Pop-on captions of at most `popon_rows` lines: built off screen, then
    /// swapped in.
    pub open spec fn pop_on_codes(self, lines: Seq<Seq<Cell>>) -> Seq<Code>
        decreases lines.len(),
    {
        if lines.len() == 0 || self.popon_rows == 0 {
            seq![]
        } else {
            let n = if lines.len() < self.popon_rows {
                lines.len() as int
            } else {
                self.popon_rows as int
            };
            seq![self.control_code(RCL, true), self.control_code(ENM, false)] + self.block_codes(
                lines.take(n),
            ) + seq![self.control_code(EOC, false)] + self.pop_on_codes(lines.skip(n))
        }
    }

    /// Paint-on captions of at most `popon_rows` lines: screen cleared, then
    /// written on.
    pub open spec fn paint_on_codes(self, lines: Seq<Seq<Cell>>) -> Seq<Code>
        decreases lines.len(),
    {
        if lines.len() == 0 || self.popon_rows == 0 {
            seq![]
        } else {
            let n = if lines.len() < self.popon_rows {
                lines.len() as int
            } else {
                self.popon_rows as int
            };
            seq![self.control_code(RDC, true), self.control_code(EDM, false)] + self.block_codes(
                lines.take(n),
            ) + self.paint_on_codes(lines.skip(n))
        }
    }

    /// The codes of a caption of `lines` in the encoder's mode.
    pub open spec fn caption_codes(self, lines: Seq<Seq<Cell>>) -> Seq<Code> {
        match self.mode {
            Mode608::RollUp(rows) => self.roll_up_codes(rows, lines),
            Mode608::PopOn => self.pop_on_codes(lines),
            Mode608::PaintOn => self.paint_on_codes(lines),
        }
    }

    /// The encoder with its queue cut down to size at a line start.
    pub open spec fn trimmed(self) -> Encoder608 {
        let cut = cut_point(self.queue);
        Encoder608 {
            queue: self.queue.skip(cut),
            dropped: counted(self.dropped, cut as nat),
            ..self
        }
    }

    /// The encoder after a caption was pushed.
    pub open spec fn captioned(self, text: Seq<char>) -> Encoder608 {
        let lines = wrapped(items_608(text), COLUMNS as nat, Cell::Basic(0x20));
        if lines.len() == 0 {
            self
        } else {
            self.sent_all(self.caption_codes(lines)).trimmed()
        }
    }

    /// The settings are in range and every queued byte has odd parity.
    pub open spec fn wf(self) -> bool {
        &&& normal_mode(self.mode) == self.mode
        &&& 4 <= self.base_row <= 15
        &&& 1 <= self.popon_rows <= 4
        &&& forall|i: int|
            #![trigger self.queue[i]]
            0 <= i < self.queue.len() ==> ones(self.queue[i].hi) % 2 == 1 && ones(self.queue[i].lo)
                % 2 == 1
    }
}

/// The codes of a line's cells. Standard characters go out in pairs; a special
/// or extended character ends the pair that is open (`pending`), an extended one
/// behind the base character that it overwrites.
pub open spec fn text_codes(line: Seq<Cell>, pending: Option<u8>, bit: u8) -> Seq<Code>
    decreases line.len(),
{
    if line.len() == 0 {
        match pending {
            Some(p) => seq![Code::Text { a: p, b: 0 }],
            None => seq![],
        }
    } else {
        let rest = line.drop_first();
        match line[0] {
            Cell::Basic(c) => match pending {
                Some(p) => seq![Code::Text { a: p, b: c }] + text_codes(rest, None, bit),
                None => text_codes(rest, Some(c), bit),
            },
            Cell::Special(lo) => {
                let code = Code::Control { hi: 0x11 | bit, lo, boundary: false };
                let head = match pending {
                    Some(p) => seq![Code::Text { a: p, b: 0 }, code],
                    None => seq![code],
                };
                head + text_codes(rest, None, bit)
            },
            Cell::Extended { set, lo, base } => {
                let code = Code::Control { hi: set | bit, lo, boundary: false };
                let head = match pending {
                    Some(p) => seq![Code::Text { a: p, b: base }, code],
                    None => seq![Code::Text { a: base, b: 0 }, code],
                };
                head + text_codes(rest, None, bit)
            },
        }
    }
}

/// The first place from `k` on at which a full queue may be cut: a line start
/// that leaves no more than the maximum, or the end.
pub open spec fn next_cut(queue: Seq<Pair>, k: int) -> int
    decreases queue.len() - k,
{
    if k >= queue.len() {
        queue.len() as int
    } else if queue[k].boundary && queue.len() - k <= MAX_QUEUE_PAIRS {
        k
    } else {
        next_cut(queue, k + 1)
    }
}

/// How many of the oldest pairs are dropped: none while the queue fits, else
/// whole lines, as few as it takes.
pub open spec fn cut_point(queue: Seq<Pair>) -> int {
    if queue.len() <= MAX_QUEUE_PAIRS {
        0
    } else {
        next_cut(queue, 1)
    }
}

proof fn lemma_next_cut(queue: Seq<Pair>, k: int)
    requires
        0 <= k <= queue.len(),
    ensures
        k <= next_cut(queue, k) <= queue.len(),
        next_cut(queue, k) < queue.len() ==> queue[next_cut(queue, k)].boundary,
        queue.len() - next_cut(queue, k) <= MAX_QUEUE_PAIRS,
    decreases queue.len() - k,
{
    if k < queue.len() && !(queue[k].boundary && queue.len() - k <= MAX_QUEUE_PAIRS) {
        lemma_next_cut(queue, k + 1);
    }
}

/// After a caption at most [`MAX_QUEUE_PAIRS`] pairs wait; what is kept are the
/// newest pairs, and if any were dropped the rest starts with a line.
pub proof fn law_trimmed_at_a_line(e: Encoder608)
    ensures
        e.trimmed().queue.len() <= 900,
        0 <= cut_point(e.queue) <= e.queue.len(),
        e.trimmed().queue == e.queue.skip(cut_point(e.queue)),
        e.queue.len() <= 900 ==> e.trimmed() == e,
        e.queue.len() > 900 && e.trimmed().queue.len() > 0
            ==> e.trimmed().queue[0].boundary,
{
    if e.queue.len() > MAX_QUEUE_PAIRS {
        lemma_next_cut(e.queue, 1);
    } else {
        assert(e.queue.skip(0) == e.queue);
        assert(e.trimmed() =~= e);
    }
}

/// Codes are queued one run after the other.
pub proof fn lemma_sent_all_concat(e: Encoder608, a: Seq<Code>, b: Seq<Code>)
    ensures
        e.sent_all(a + b) == e.sent_all(a).sent_all(b),
    decreases a.len(),
{
    if a.len() == 0 {
        assert(a + b == b);
    } else {
        lemma_sent_all_concat(e.sent(a[0]), a.drop_first(), b);
        assert((a + b).drop_first() == a.drop_first() + b);
        assert((a + b)[0] == a[0]);
    }
}

proof fn lemma_sent_all_one(e: Encoder608, code: Code)
    ensures
        e.sent_all(seq![code]) == e.sent(code),
{
    assert(seq![code].drop_first() == Seq::<Code>::empty());
    assert(e.sent(code).sent_all(Seq::<Code>::empty()) == e.sent(code));
}

proof fn lemma_sent_all_two(e: Encoder608, a: Code, b: Code)
    ensures
        e.sent_all(seq![a, b]) == e.sent(a).sent(b),
{
    assert(seq![a, b].drop_first() == seq![b]);
    lemma_sent_all_one(e.sent(a), b);
}

/// Queueing codes changes no setting.
pub proof fn lemma_sent_all_keeps(e: Encoder608, codes: Seq<Code>)
    ensures
        e.sent_all(codes).set_like(e),
    decreases codes.len(),
{
    if codes.len() > 0 {
        reveal(Encoder608::sent);
        lemma_sent_all_keeps(e.sent(codes[0]), codes.drop_first());
    }
}

/// CEA-608 encoder for one channel.
///
/// Text is queued with [`push_text`](Self::push_text); every video frame the
/// caller asks for this field's byte pair with [`next_pair`](Self::next_pair),
/// which returns `None` when idle (send a null pair then). Pairs already carry
/// parity. Control codes are sent twice, as CEA-608 recommends. Text is wrapped
/// at 32 columns; unsupported characters are spelled out or dropped.
#[derive(Clone, Debug)]
pub struct Cc608Encoder {
    pub channel: Channel,
    mode: Mode608,
    base_row: u8,
    popon_rows: u8,
    queue: VecDeque<Pair>,
    last_queued: Option<(u8, u8)>,
    dropped_pairs: u64,
}

impl View for Cc608Encoder {
    type V = Encoder608;

    closed spec fn view(&self) -> Encoder608 {
        Encoder608 {
            channel: self.channel,
            mode: self.mode,
            base_row: self.base_row,
            popon_rows: self.popon_rows,
            queue: self.queue@,
            last: self.last_queued,
            dropped: self.dropped_pairs,
        }
    }
}

impl Cc608Encoder {
    /// Roll-up, 3 rows, bottom row 15.
    pub fn new(channel: Channel) -> (r: Self)
        ensures
            r@.wf(),
            r@ == (Encoder608 {
                channel,
                mode: Mode608::RollUp(3),
                base_row: 15,
                popon_rows: 2,
                queue: seq![],
                last: None,
                dropped: 0,
            }),
    {
        Self::with_mode(channel, Mode608::RollUp(3))
    }

    pub fn with_mode(channel: Channel, mode: Mode608) -> (r: Self)
        ensures
            r@.wf(),
            r@ == (Encoder608 {
                channel,
                mode: normal_mode(mode),
                base_row: 15,
                popon_rows: 2,
                queue: seq![],
                last: None,
                dropped: 0,
            }),
    {
        Cc608Encoder {
            channel,
            mode: normalize(mode),
            base_row: 15,
            popon_rows: 2,
            queue: VecDeque::new(),
            last_queued: None,
            dropped_pairs: 0,
        }
    }

    /// The channel the encoder writes to.
    pub fn channel(&self) -> (r: Channel)
        ensures
            r == self@.channel,
    {
        self.channel
    }

    pub fn mode(&self) -> (r: Mode608)
        ensures
            r == self@.mode,
    {
        self.mode
    }

    /// Changes mode for text pushed from now on (the mode code is resent with every line).
    pub fn set_mode(&mut self, mode: Mode608)
        requires
            old(self)@.wf(),
        ensures
            final(self)@.wf(),
            final(self)@ == (Encoder608 { mode: normal_mode(mode), ..old(self)@ }),
    {
        self.mode = normalize(mode);
    }

    /// Bottom caption row (1-15, default 15). Clamped so roll-up/pop-on rows fit.
    pub fn set_base_row(&mut self, row: u8)
        requires
            old(self)@.wf(),
        ensures
            final(self)@.wf(),
            final(self)@ == (Encoder608 {
                base_row: if row < 4 {
                    4
                } else if row > 15 {
                    15
                } else {
                    row
                },
                ..old(self)@
            }),
    {
        self.base_row = if row < 4 {
            4
        } else if row > 15 {
            15
        } else {
            row
        };
    }

    /// Max rows per pop-on/paint-on caption (1-4, default 2).
    pub fn set_popon_rows(&mut self, rows: u8)
        requires
            old(self)@.wf(),
        ensures
            final(self)@.wf(),
            final(self)@ == (Encoder608 {
                popon_rows: if rows < 1 {
                    1
                } else if rows > 4 {
                    4
                } else {
                    rows
                },
                ..old(self)@
            }),
    {
        self.popon_rows = if rows < 1 {
            1
        } else if rows > 4 {
            4
        } else {
            rows
        };
    }

    /// Queues `text` as one caption. `\n` forces a line break; long text wraps
    /// at word boundaries (hard-split if a word exceeds 32 columns). Empty or
    /// all-unsupported text queues nothing.
    pub fn push_text(&mut self, text: &str)
        requires
            old(self)@.wf(),
        ensures
            final(self)@.wf(),
            final(self)@ == old(self)@.captioned(text@),
    {
        let lines = wrap(cells_608(text).as_slice(), COLUMNS);
        let ghost all = line_shapes(lines@);
        proof {
            assert forall|k: int| 0 <= k < lines@.len() implies all[k] == #[trigger] lines@[k]@ by {
                assert(shapes(lines@[k]@) =~= lines@[k]@);
            }
        }
        if lines.len() == 0 {
            return;
        }
        match self.mode {
            Mode608::RollUp(rows) => self.roll_up(rows, &lines),
            Mode608::PopOn => self.pop_on(&lines),
            Mode608::PaintOn => self.paint_on(&lines),
        }
        self.trim();
    }

    fn roll_up(&mut self, rows: u8, lines: &Vec<Vec<Cell>>)
        requires
            old(self)@.wf(),
            2 <= rows <= 4,
            forall|k: int|
                0 <= k < lines@.len() ==> line_shapes(lines@)[k] == #[trigger] lines@[k]@,
        ensures
            final(self)@.wf(),
            final(self)@ == old(self)@.sent_all(
                old(self)@.roll_up_codes(rows, line_shapes(lines@)),
            ),
    {
        let ghost start = self@;
        let ghost all = line_shapes(lines@);
        let ghost target = self@.sent_all(self@.roll_up_codes(rows, all));
        assert(all.skip(0) == all);
        let mut i: usize = 0;
        while i < lines.len()
            invariant
                i <= lines.len(),
                2 <= rows <= 4,
                self@.wf(),
                all == line_shapes(lines@),
                forall|k: int| 0 <= k < lines@.len() ==> all[k] == #[trigger] lines@[k]@,
                self@.set_like(start),
                target == self@.sent_all(start.roll_up_codes(rows, all.skip(i as int))),
            decreases lines.len() - i,
        {
            let ghost before = self@;
            let ghost todo = all.skip(i as int);
            self.control(RU2 + rows - 2, true);
            self.control(CR, false);
            let ghost headed = self@;
            let row: u8 = self.base_row;
            self.row_line(row, &lines[i]);
            proof {
                assert(todo[0] == lines@[i as int]@);
                assert(todo.drop_first() == all.skip(i + 1));
                let head = seq![
                    start.control_code((RU2 + rows - 2) as u8, true),
                    start.control_code(CR, false),
                ];
                let line = start.row_codes(start.base_row as int, todo[0]);
                let rest = start.roll_up_codes(rows, all.skip(i + 1));
                lemma_sent_all_concat(before, head + line, rest);
                lemma_sent_all_concat(before, head, line);
                lemma_sent_all_two(before, head[0], head[1]);
                lemma_sent_all_keeps(headed, line);
            }
            i = i + 1;
        }
        assert(all.skip(i as int).len() == 0);
    }

    fn pop_on(&mut self, lines: &Vec<Vec<Cell>>)
        requires
            old(self)@.wf(),
            forall|k: int|
                0 <= k < lines@.len() ==> line_shapes(lines@)[k] == #[trigger] lines@[k]@,
        ensures
            final(self)@.wf(),
            final(self)@ == old(self)@.sent_all(old(self)@.pop_on_codes(line_shapes(lines@))),
    {
        let ghost start = self@;
        let ghost all = line_shapes(lines@);
        let ghost target = self@.sent_all(self@.pop_on_codes(all));
        assert(all.skip(0) == all);
        let step: usize = self.popon_rows as usize;
        let mut i: usize = 0;
        while i < lines.len()
            invariant
                i <= lines.len(),
                self@.wf(),
                start.wf(),
                step == start.popon_rows,
                all == line_shapes(lines@),
                forall|k: int| 0 <= k < lines@.len() ==> all[k] == #[trigger] lines@[k]@,
                self@.set_like(start),
                target == self@.sent_all(start.pop_on_codes(all.skip(i as int))),
            decreases lines.len() - i,
        {
            let ghost before = self@;
            let ghost todo = all.skip(i as int);
            let n: usize = if lines.len() - i < step { lines.len() - i } else { step };
            self.control(RCL, true);
            self.control(ENM, false);
            let ghost headed = self@;
            self.rows(lines, i, i + n);
            let ghost filled = self@;
            self.control(EOC, false);
            proof {
                assert(todo.take(n as int) == all.subrange(i as int, i + n));
                assert(todo.skip(n as int) == all.skip(i + n));
                let head = seq![start.control_code(RCL, true), start.control_code(ENM, false)];
                let body = start.block_codes(todo.take(n as int));
                let tail = seq![start.control_code(EOC, false)];
                let rest = start.pop_on_codes(all.skip(i + n));
                lemma_sent_all_concat(before, head + body + tail, rest);
                lemma_sent_all_concat(before, head + body, tail);
                lemma_sent_all_concat(before, head, body);
                lemma_sent_all_two(before, head[0], head[1]);
                lemma_block_codes_same(start, headed, todo.take(n as int));
                lemma_sent_all_keeps(headed, body);
                lemma_sent_all_one(filled, tail[0]);
            }
            i = i + n;
        }
        assert(all.skip(i as int).len() == 0);
    }

    fn paint_on(&mut self, lines: &Vec<Vec<Cell>>)
        requires
            old(self)@.wf(),
            forall|k: int|
                0 <= k < lines@.len() ==> line_shapes(lines@)[k] == #[trigger] lines@[k]@,
        ensures
            final(self)@.wf(),
            final(self)@ == old(self)@.sent_all(old(self)@.paint_on_codes(line_shapes(lines@))),
    {
        let ghost start = self@;
        let ghost all = line_shapes(lines@);
        let ghost target = self@.sent_all(self@.paint_on_codes(all));
        assert(all.skip(0) == all);
        let step: usize = self.popon_rows as usize;
        let mut i: usize = 0;
        while i < lines.len()
            invariant
                i <= lines.len(),
                self@.wf(),
                start.wf(),
                step == start.popon_rows,
                all == line_shapes(lines@),
                forall|k: int| 0 <= k < lines@.len() ==> all[k] == #[trigger] lines@[k]@,
                self@.set_like(start),
                target == self@.sent_all(start.paint_on_codes(all.skip(i as int))),
            decreases lines.len() - i,
        {
            let ghost before = self@;
            let ghost todo = all.skip(i as int);
            let n: usize = if lines.len() - i < step { lines.len() - i } else { step };
            self.control(RDC, true);
            self.control(EDM, false);
            let ghost headed = self@;
            self.rows(lines, i, i + n);
            proof {
                assert(todo.take(n as int) == all.subrange(i as int, i + n));
                assert(todo.skip(n as int) == all.skip(i + n));
                let head = seq![start.control_code(RDC, true), start.control_code(EDM, false)];
                let body = start.block_codes(todo.take(n as int));
                let rest = start.paint_on_codes(all.skip(i + n));
                lemma_sent_all_concat(before, head + body, rest);
                lemma_sent_all_concat(before, head, body);
                lemma_sent_all_two(before, head[0], head[1]);
                lemma_block_codes_same(start, headed, todo.take(n as int));
                lemma_sent_all_keeps(headed, body);
            }
            i = i + n;
        }
        assert(all.skip(i as int).len() == 0);
    }

    /// Erases the displayed caption (EDM), and in pop-on mode the buffer too (ENM).
    pub fn clear(&mut self)
        requires
            old(self)@.wf(),
        ensures
            final(self)@.wf(),
            ({
                let erased = old(self)@.sent(old(self)@.control_code(EDM, true));
                final(self)@ == if old(self)@.mode == Mode608::PopOn {
                    erased.sent(old(self)@.control_code(ENM, false))
                } else {
                    erased
                }
            }),
    {
        self.control(EDM, true);
        if matches!(self.mode, Mode608::PopOn) {
            self.control(ENM, false);
        }
    }

    /// Deletes the character left of the cursor (BS).
    pub fn backspace(&mut self)
        requires
            old(self)@.wf(),
        ensures
            final(self)@.wf(),
            final(self)@ == old(self)@.sent(old(self)@.control_code(BS, true)),
    {
        self.control(BS, true);
    }

    /// Deletes from the cursor to the end of the row (DER).
    pub fn delete_to_end_of_row(&mut self)
        requires
            old(self)@.wf(),
        ensures
            final(self)@.wf(),
            final(self)@ == old(self)@.sent(old(self)@.control_code(DER, true)),
    {
        self.control(DER, true);
    }

    /// Next byte pair for this channel's field, or `None` when idle.
    pub fn next_pair(&mut self) -> (r: Option<[u8; 2]>)
        requires
            old(self)@.wf(),
        ensures
            final(self)@.wf(),
            r is None <==> old(self)@.queue.len() == 0,
            r is None ==> final(self)@ == old(self)@,
            r is Some ==> final(self)@ == (Encoder608 {
                queue: old(self)@.queue.drop_first(),
                ..old(self)@
            }),
            r matches Some(p) ==> p@ == seq![old(self)@.queue[0].hi, old(self)@.queue[0].lo],
            r matches Some(p) ==> ones(p@[0]) % 2 == 1 && ones(p@[1]) % 2 == 1,
    {
        let ghost before = self@.queue;
        match self.queue.pop_front() {
            Some(pair) => {
                assert(pair == before[0]);
                assert(self.queue@ == before.drop_first());
                let r = [pair.hi, pair.lo];
                assert(r@ == seq![pair.hi, pair.lo]);
                Some(r)
            },
            None => {
                assert(self@ =~= old(self)@);
                None
            },
        }
    }

    /// True when idle or when the next pair starts a new line, i.e. another
    /// channel on the same field may be interleaved here.
    pub fn at_boundary(&self) -> (r: bool)
        ensures
            r == at_border(self@.queue),
    {
        self.queue.len() == 0 || self.queue[0].boundary
    }

    /// Queued pairs not yet sent.
    pub fn pending(&self) -> (r: usize)
        ensures
            r == self@.queue.len(),
    {
        self.queue.len()
    }

    /// Pairs discarded because the queue exceeded [`MAX_QUEUE_PAIRS`].
    pub fn dropped_pairs(&self) -> (r: u64)
        ensures
            r == self@.dropped,
    {
        self.dropped_pairs
    }

    /// Queues `lines[from..to]` on consecutive rows ending at the base row.
    fn rows(&mut self, lines: &Vec<Vec<Cell>>, from: usize, to: usize)
        requires
            old(self)@.wf(),
            from <= to <= lines.len(),
            to - from <= 4,
            forall|k: int|
                0 <= k < lines@.len() ==> line_shapes(lines@)[k] == #[trigger] lines@[k]@,
        ensures
            final(self)@.wf(),
            final(self)@.set_like(old(self)@),
            final(self)@ == old(self)@.sent_all(
                old(self)@.block_codes(line_shapes(lines@).subrange(from as int, to as int)),
            ),
    {
        let ghost start = self@;
        let ghost all = line_shapes(lines@);
        let ghost group = all.subrange(from as int, to as int);
        let ghost target = self@.sent_all(self@.block_codes(group));
        assert(group.skip(0) == group);
        let mut i: usize = from;
        while i < to
            invariant
                from <= i <= to <= lines.len(),
                to - from <= 4,
                self@.wf(),
                start.wf(),
                all == line_shapes(lines@),
                group == all.subrange(from as int, to as int),
                forall|k: int| 0 <= k < lines@.len() ==> all[k] == #[trigger] lines@[k]@,
                self@.set_like(start),
                target == self@.sent_all(start.block_codes(group.skip(i - from))),
            decreases to - i,
        {
            let ghost before = self@;
            let ghost todo = group.skip(i - from);
            let row: u8 = self.base_row + 1 - (to - i) as u8;
            self.row_line(row, &lines[i]);
            proof {
                assert(todo[0] == lines@[i as int]@);
                assert(todo.drop_first() == group.skip(i + 1 - from));
                let line = start.row_codes(start.base_row + 1 - todo.len(), todo[0]);
                let rest = start.block_codes(group.skip(i + 1 - from));
                lemma_sent_all_concat(before, line, rest);
                lemma_sent_all_keeps(before, line);
            }
            i = i + 1;
        }
        assert(group.skip(i - from).len() == 0);
    }

    fn control(&mut self, lo: u8, boundary: bool)
        requires
            old(self)@.wf(),
        ensures
            final(self)@.wf(),
            final(self)@.set_like(old(self)@),
            final(self)@ == old(self)@.sent(old(self)@.control_code(lo, boundary)),
    {
        self.twice(self.channel.misc_control_byte(), lo, boundary);
    }

    /// Queues a control-type pair twice. If the same pair was just queued
    /// (e.g. for a doubled accent), a doubled DER goes between: FFmpeg and
    /// libcaption ignore *every* repeat of the last code until a different
    /// non-padding code arrives (a null pair does not reset them). DER at the
    /// write position deletes nothing because we always write at the end of the row.
    fn twice(&mut self, hi: u8, lo: u8, boundary: bool)
        requires
            old(self)@.wf(),
        ensures
            final(self)@.wf(),
            final(self)@.set_like(old(self)@),
            final(self)@ == old(self)@.sent(Code::Control { hi, lo, boundary }),
    {
        let p: u8 = odd_parity(hi);
        let q: u8 = odd_parity(lo);
        let repeated = match self.last_queued {
            Some((a, b)) => a == p && b == q,
            None => false,
        };
        let ghost before = self.queue@;
        if repeated {
            let a: u8 = odd_parity(self.channel.misc_control_byte());
            let b: u8 = odd_parity(DER);
            self.queue.push_back(Pair { hi: a, lo: b, boundary: false });
            self.queue.push_back(Pair { hi: a, lo: b, boundary: false });
        }
        self.queue.push_back(Pair { hi: p, lo: q, boundary });
        self.queue.push_back(Pair { hi: p, lo: q, boundary: false });
        self.last_queued = Some((p, q));
        proof {
            reveal(Encoder608::sent);
            assert(self@ =~= old(self)@.sent(Code::Control { hi, lo, boundary }));
        }
    }

    fn standard(&mut self, a: u8, b: u8)
        requires
            old(self)@.wf(),
        ensures
            final(self)@.wf(),
            final(self)@.set_like(old(self)@),
            final(self)@ == old(self)@.sent(Code::Text { a, b }),
    {
        let p: u8 = odd_parity(a);
        let q: u8 = odd_parity(b);
        self.queue.push_back(Pair { hi: p, lo: q, boundary: false });
        self.last_queued = Some((p, q));
        proof {
            reveal(Encoder608::sent);
        }
    }

    /// Queues the row's address code and the line's text.
    fn row_line(&mut self, row: u8, line: &Vec<Cell>)
        requires
            old(self)@.wf(),
        ensures
            final(self)@.wf(),
            final(self)@.set_like(old(self)@),
            final(self)@ == old(self)@.sent_all(old(self)@.row_codes(row as int, line@)),
    {
        let ghost before = self@;
        let code = pac(self.channel, row, 0);
        self.twice(code[0], code[1], false);
        let ghost addressed = self@;
        self.text_line(line);
        proof {
            let text = text_codes(line@, None, before.channel.bit());
            lemma_sent_all_concat(before, seq![before.row_start(row as int)], text);
            lemma_sent_all_one(before, before.row_start(row as int));
            lemma_sent_all_keeps(addressed, text);
        }
    }

    fn text_line(&mut self, line: &Vec<Cell>)
        requires
            old(self)@.wf(),
        ensures
            final(self)@.wf(),
            final(self)@ == old(self)@.sent_all(
                text_codes(line@, None, old(self)@.channel.bit()),
            ),
    {
        let bit: u8 = self.channel.chan_bit();
        let ghost target = self@.sent_all(text_codes(line@, None, bit));
        let ghost channel = self@.channel;
        let mut pending: Option<u8> = None;
        assert(line@.skip(0) == line@);
        let mut i: usize = 0;
        while i < line.len()
            invariant
                i <= line.len(),
                self@.wf(),
                self@.channel == channel,
                bit == channel.bit(),
                target == self@.sent_all(text_codes(line@.skip(i as int), pending, bit)),
            decreases line.len() - i,
        {
            let ghost before = self@;
            let ghost todo = line@.skip(i as int);
            let ghost was = pending;
            proof {
                assert(todo[0] == line@[i as int]);
                assert(todo.drop_first() == line@.skip(i + 1));
            }
            let ghost rest = text_codes(line@.skip(i + 1), None, bit);
            match line[i] {
                Cell::Basic(c) => {
                    match pending {
                        Some(p) => {
                            self.standard(p, c);
                            pending = None;
                            proof {
                                let code = Code::Text { a: p, b: c };
                                lemma_sent_all_concat(before, seq![code], rest);
                                lemma_sent_all_one(before, code);
                            }
                        },
                        None => {
                            pending = Some(c);
                        },
                    }
                },
                Cell::Special(lo) => {
                    if let Some(p) = pending {
                        self.standard(p, 0);
                    }
                    pending = None;
                    self.twice(0x11 | bit, lo, false);
                    proof {
                        let code = Code::Control { hi: 0x11 | bit, lo, boundary: false };
                        match was {
                            Some(p) => {
                                let text = Code::Text { a: p, b: 0 };
                                lemma_sent_all_concat(before, seq![text, code], rest);
                                lemma_sent_all_two(before, text, code);
                            },
                            None => {
                                lemma_sent_all_concat(before, seq![code], rest);
                                lemma_sent_all_one(before, code);
                            },
                        }
                    }
                },
                Cell::Extended { set, lo, base } => {
                    // Base character first; the extended code backspaces over it
                    // on decoders that know the extended set.
                    match pending {
                        Some(p) => self.standard(p, base),
                        None => self.standard(base, 0),
                    }
                    pending = None;
                    self.twice(set | bit, lo, false);
                    proof {
                        let code = Code::Control { hi: set | bit, lo, boundary: false };
                        let text = match was {
                            Some(p) => Code::Text { a: p, b: base },
                            None => Code::Text { a: base, b: 0 },
                        };
                        lemma_sent_all_concat(before, seq![text, code], rest);
                        lemma_sent_all_two(before, text, code);
                    }
                },
            }
            i = i + 1;
        }
        assert(line@.skip(i as int).len() == 0);
        if let Some(p) = pending {
            let ghost before = self@;
            self.standard(p, 0);
            proof {
                lemma_sent_all_one(before, Code::Text { a: p, b: 0 });
            }
        }
    }

    /// Drops the oldest whole lines until the queue fits.
    fn trim(&mut self)
        requires
            old(self)@.wf(),
        ensures
            final(self)@.wf(),
            final(self)@ == old(self)@.trimmed(),
    {
        let ghost all = self.queue@;
        proof {
            law_trimmed_at_a_line(self@);
        }
        if self.queue.len() <= MAX_QUEUE_PAIRS {
            return;
        }
        let mut k: usize = 1;
        while k < self.queue.len() && !(self.queue[k].boundary && self.queue.len() - k
            <= MAX_QUEUE_PAIRS)
            invariant
                1 <= k <= all.len(),
                self.queue@ == all,
                self@ == old(self)@,
                next_cut(all, 1) == next_cut(all, k as int),
            decreases all.len() - k,
        {
            k = k + 1;
        }
        self.dropped_pairs = count(self.dropped_pairs, k as u64);
        let mut i: usize = 0;
        assert(all.skip(0) == all);
        while i < k
            invariant
                i <= k <= all.len(),
                self.queue@ == all.skip(i as int),
                self@ == (Encoder608 {
                    queue: all.skip(i as int),
                    dropped: counted(old(self)@.dropped, k as nat),
                    ..old(self)@
                }),
            decreases k - i,
        {
            let _ = self.queue.pop_front();
            assert(all.skip(i as int).subrange(1, all.skip(i as int).len() as int) == all.skip(
                i + 1,
            ));
            i = i + 1;
        }
    }
}

proof fn lemma_block_codes_same(a: Encoder608, b: Encoder608, lines: Seq<Seq<Cell>>)
    requires
        a.channel == b.channel,
        a.base_row == b.base_row,
    ensures
        a.block_codes(lines) == b.block_codes(lines),
    decreases lines.len(),
{
    if lines.len() > 0 {
        lemma_block_codes_same(a, b, lines.drop_first());
    }
}

} // verus!
