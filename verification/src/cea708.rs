//! CEA-708 (DTVCC) service-layer encoder: one roll-up window per service.
//!
//! [`Cc708Encoder`] produces service-layer commands and text as atomic units
//! (a command or character is never split). [`crate::mux::CcMux`] packs units
//! from several services into service blocks and DTVCC packets.
//!
//! Only G0 (ASCII), G1 (Latin-1) and G2/G3 (via EXT1) are emitted. CJK,
//! Arabic, Cyrillic etc. would need the `P16` code (0x18 + 2 bytes), whose
//! character mapping CEA-708 leaves to the region (e.g. KS X 1001 in Korea);
//! decoders only render it when told the encoding out of band.
use std::collections::VecDeque;
use vstd::prelude::*;

use crate::counter::{count, counted};
use crate::text::{cells_708, items_708, line_shapes, shapes, wrap, wrapped, Glyph};

verus! {

/// Highest standard service number (services 1-6 use the short block header).
pub const MAX_SERVICE: u8 = 6;

/// Maximum queued units per service before the oldest lines are dropped.
pub const MAX_QUEUE_UNITS: usize = 4000;

/// Lines between repeats of the window definition, so a receiver that tunes in
/// mid-stream gets a window within a few lines.
pub const REDEFINE_EVERY: u32 = 4;

/// The most bytes a service block can carry.
pub const MAX_BLOCK: usize = 31;

/// C0 and C1 command codes.
pub const ETX: u8 = 0x03;

pub const BS: u8 = 0x08;

pub const CR: u8 = 0x0D;

pub const EXT1: u8 = 0x10;

pub const P16: u8 = 0x18;

pub const CW0: u8 = 0x80;

pub const CLW: u8 = 0x88;

pub const DSW: u8 = 0x89;

pub const HDW: u8 = 0x8A;

pub const DLW: u8 = 0x8C;

pub const RST: u8 = 0x8F;

pub const SPA: u8 = 0x90;

pub const SPC: u8 = 0x91;

pub const SPL: u8 = 0x92;

pub const SWA: u8 = 0x97;

pub const DF0: u8 = 0x98;

/// A service-layer unit: one command with its parameters, or one character.
#[derive(Clone, Debug)]
pub struct Unit {
    bytes: Vec<u8>,
    /// First unit of a line; the queue is trimmed at these.
    line_start: bool,
}

/// What a unit holds.
pub struct UnitBytes {
    pub bytes: Seq<u8>,
    pub line_start: bool,
}

impl View for Unit {
    type V = UnitBytes;

    closed spec fn view(&self) -> UnitBytes {
        UnitBytes { bytes: self.bytes@, line_start: self.line_start }
    }
}

/// The state of an encoder.
#[verifier::ext_equal]
pub struct Encoder708 {
    pub service: u8,
    pub rows: u8,
    pub columns: u8,
    /// Units waiting, oldest first.
    pub queue: Seq<UnitBytes>,
    /// Lines sent since the window was last defined.
    pub since_define: u32,
    /// Units discarded because the queue was full or they fit no block.
    pub dropped: u64,
}

/// DefineWindow 0 (visible, relative position 90% down and 50% across, anchored
/// bottom-centre, window style 4, pen style 1), SetWindowAttributes (solid black,
/// no border, left-justified, roll-up), SetPenAttributes (standard size, normal
/// offset) and SetPenColor (white on solid black).
pub open spec fn window_units(rows: u8, columns: u8) -> Seq<Seq<u8>> {
    seq![
        seq![
            DF0,
            0x20,
            0xDA,
            50,
            (0x70 + rows - 1) as u8,
            (columns - 1) as u8,
            0x21,
        ],
        seq![SWA, 0x00, 0x00, 0x0C, 0x00],
        seq![SPA, 0x05, 0x00],
        seq![SPC, 0x3F, 0x00, 0x00],
    ]
}

/// Units of the given bytes, none of which starts a line unless it is the first
/// and `first` says so.
pub open spec fn units_of(bytes: Seq<Seq<u8>>, first: bool) -> Seq<UnitBytes> {
    Seq::new(
        bytes.len(),
        |k: int| UnitBytes { bytes: bytes[k], line_start: first && k == 0 },
    )
}

impl Encoder708 {
    /// The byte strings of one line: the window definition if it is due, `CR`,
    /// the cells, `ETX`.
    pub open spec fn line_bytes(self, line: Seq<Seq<u8>>) -> Seq<Seq<u8>> {
        (if self.since_define >= REDEFINE_EVERY {
            window_units(self.rows, self.columns)
        } else {
            seq![]
        }) + seq![seq![CR]] + line + seq![seq![ETX]]
    }

    /// The encoder with one line queued.
    pub open spec fn lined(self, line: Seq<Seq<u8>>) -> Encoder708 {
        Encoder708 {
            queue: self.queue + units_of(self.line_bytes(line), true),
            since_define: if self.since_define >= REDEFINE_EVERY {
                1
            } else {
                (self.since_define + 1) as u32
            },
            ..self
        }
    }

    /// The encoder with several lines queued.
    pub open spec fn lined_all(self, lines: Seq<Seq<Seq<u8>>>) -> Encoder708
        decreases lines.len(),
    {
        if lines.len() == 0 {
            self
        } else {
            self.lined(lines[0]).lined_all(lines.drop_first())
        }
    }

    /// The encoder with its queue cut down to size at a line start. The window
    /// definition may have been dropped, so it is due again.
    pub open spec fn trimmed(self) -> Encoder708 {
        if self.queue.len() <= MAX_QUEUE_UNITS {
            self
        } else {
            let cut = next_cut(self.queue, 1);
            Encoder708 {
                queue: self.queue.skip(cut),
                since_define: REDEFINE_EVERY,
                dropped: counted(self.dropped, cut as nat),
                ..self
            }
        }
    }

    /// The encoder after text was pushed.
    pub open spec fn captioned(self, text: Seq<char>) -> Encoder708 {
        self.lined_all(wrapped(items_708(text), self.columns as nat, seq![0x20u8])).trimmed()
    }

    /// The encoder with one more unit queued.
    pub open spec fn pushed(self, bytes: Seq<u8>, line_start: bool) -> Encoder708 {
        Encoder708 { queue: self.queue.push(UnitBytes { bytes, line_start }), ..self }
    }

    /// The encoder after a service block of at most `room` bytes was taken.
    pub open spec fn after_block(self, room: int) -> Encoder708 {
        Encoder708 {
            queue: self.queue.skip(taken(self.queue, room).units),
            dropped: counted(self.dropped, taken(self.queue, room).dropped),
            ..self
        }
    }

    /// Service and window are in range, and no line count is past the repeat.
    pub open spec fn wf(self) -> bool {
        &&& 1 <= self.service <= MAX_SERVICE
        &&& 1 <= self.rows <= 12
        &&& 1 <= self.columns <= 42
        &&& self.since_define <= REDEFINE_EVERY
    }
}

/// The first place from `k` on at which a full queue may be cut: a line start
/// that leaves no more than the maximum, or the end.
pub open spec fn next_cut(queue: Seq<UnitBytes>, k: int) -> int
    decreases queue.len() - k,
{
    if k >= queue.len() {
        queue.len() as int
    } else if queue[k].line_start && queue.len() - k <= MAX_QUEUE_UNITS {
        k
    } else {
        next_cut(queue, k + 1)
    }
}

/// What taking a service block of at most `max` bytes does to a queue: how many
/// units leave it, the bytes taken, and how many units were dropped.
pub struct Taken {
    pub units: int,
    pub block: Seq<u8>,
    pub dropped: nat,
}

/// Whole units from the front as long as they fit into `room` bytes; units that
/// fit no service block at all are passed over.
pub open spec fn taken(queue: Seq<UnitBytes>, room: int) -> Taken
    decreases queue.len(),
{
    if queue.len() == 0 {
        Taken { units: 0, block: seq![], dropped: 0 }
    } else {
        let unit = queue[0].bytes;
        let rest = queue.drop_first();
        if unit.len() > MAX_BLOCK {
            let next = taken(rest, room);
            Taken { units: next.units + 1, block: next.block, dropped: next.dropped + 1 }
        } else if unit.len() > room {
            Taken { units: 0, block: seq![], dropped: 0 }
        } else {
            let next = taken(rest, room - unit.len());
            Taken { units: next.units + 1, block: unit + next.block, dropped: next.dropped }
        }
    }
}

proof fn lemma_next_cut(queue: Seq<UnitBytes>, k: int)
    requires
        0 <= k <= queue.len(),
    ensures
        k <= next_cut(queue, k) <= queue.len(),
        next_cut(queue, k) < queue.len() ==> queue[next_cut(queue, k)].line_start,
        queue.len() - next_cut(queue, k) <= MAX_QUEUE_UNITS,
    decreases queue.len() - k,
{
    if k < queue.len() && !(queue[k].line_start && queue.len() - k <= MAX_QUEUE_UNITS) {
        lemma_next_cut(queue, k + 1);
    }
}

/// After text was pushed at most [`MAX_QUEUE_UNITS`] units wait, the newest
/// ones; if any were dropped the rest starts with a line.
pub proof fn law_trimmed_at_a_line(e: Encoder708)
    ensures
        e.trimmed().queue.len() <= 4000,
        e.queue.len() <= 4000 ==> e.trimmed() == e,
        e.queue.len() > 4000 ==> {
            &&& 1 <= next_cut(e.queue, 1) <= e.queue.len()
            &&& e.trimmed().queue == e.queue.skip(next_cut(e.queue, 1))
            &&& e.trimmed().queue.len() > 0 ==> e.trimmed().queue[0].line_start
        },
{
    if e.queue.len() > MAX_QUEUE_UNITS {
        lemma_next_cut(e.queue, 1);
    }
}

/// Pushing text changes neither service nor window.
pub proof fn law_captions_keep_the_service(e: Encoder708, text: Seq<char>)
    ensures
        e.captioned(text).service == e.service,
        e.captioned(text).rows == e.rows,
        e.captioned(text).columns == e.columns,
{
    lemma_lined_all_keeps(e, wrapped(items_708(text), e.columns as nat, seq![0x20u8]));
}

proof fn lemma_lined_all_keeps(e: Encoder708, lines: Seq<Seq<Seq<u8>>>)
    ensures
        e.lined_all(lines).service == e.service,
        e.lined_all(lines).rows == e.rows,
        e.lined_all(lines).columns == e.columns,
    decreases lines.len(),
{
    if lines.len() > 0 {
        lemma_lined_all_keeps(e.lined(lines[0]), lines.drop_first());
    }
}

/// A service block never splits a unit and never exceeds its room: it is made of
/// whole units from the front of the queue, and what was not taken stays.
pub proof fn law_blocks_never_split_units(queue: Seq<UnitBytes>, room: int)
    requires
        room >= 0,
    ensures
        0 <= taken(queue, room).units <= queue.len(),
        taken(queue, room).block.len() <= room,
        taken(queue, room).block == whole_units(queue.take(taken(queue, room).units)),
        taken(queue, room).units < queue.len() ==> room < taken(queue, room).block.len()
            + queue[taken(queue, room).units].bytes.len(),
    decreases queue.len(),
{
    if queue.len() > 0 {
        let unit = queue[0].bytes;
        let rest = queue.drop_first();
        if unit.len() > MAX_BLOCK {
            law_blocks_never_split_units(rest, room);
            let n = taken(rest, room).units;
            assert(queue.take(n + 1).drop_first() == rest.take(n));
            assert(queue.take(n + 1)[0] == queue[0]);
        } else if unit.len() <= room {
            law_blocks_never_split_units(rest, room - unit.len());
            let n = taken(rest, room - unit.len()).units;
            assert(queue.take(n + 1).drop_first() == rest.take(n));
            assert(queue.take(n + 1)[0] == queue[0]);
        } else {
            assert(queue.take(0) == Seq::<UnitBytes>::empty());
        }
    }
}

/// The bytes of the units that fit a service block, in order.
pub open spec fn whole_units(queue: Seq<UnitBytes>) -> Seq<u8>
    decreases queue.len(),
{
    if queue.len() == 0 {
        seq![]
    } else if queue[0].bytes.len() > MAX_BLOCK {
        whole_units(queue.drop_first())
    } else {
        queue[0].bytes + whole_units(queue.drop_first())
    }
}

/// The total length of a list of units.
pub open spec fn total_bytes(queue: Seq<UnitBytes>) -> nat
    decreases queue.len(),
{
    if queue.len() == 0 {
        0
    } else {
        total_bytes(queue.drop_last()) + queue.last().bytes.len()
    }
}

/// What the units of a queue hold.
pub open spec fn unit_views(queue: Seq<Unit>) -> Seq<UnitBytes> {
    queue.map_values(|u: Unit| u@)
}

/// CEA-708 encoder for one caption service (1-6), writing roll-up captions
/// into window 0.
///
/// Every few lines it re-sends DefineWindow + SetWindowAttributes +
/// SetPenAttributes + SetPenColor so late joiners get a window. Each line is
/// `CR` + text + `ETX`.
#[derive(Clone, Debug)]
pub struct Cc708Encoder {
    service: u8,
    rows: u8,
    columns: u8,
    queue: VecDeque<Unit>,
    lines_since_define: u32,
    dropped_units: u64,
}

impl View for Cc708Encoder {
    type V = Encoder708;

    closed spec fn view(&self) -> Encoder708 {
        Encoder708 {
            service: self.service,
            rows: self.rows,
            columns: self.columns,
            queue: unit_views(self.queue@),
            since_define: self.lines_since_define,
            dropped: self.dropped_units,
        }
    }
}

impl Cc708Encoder {
    /// Encoder for `service` (1-6); `None` for any other number. Defaults to
    /// 3 rows of 32 columns.
    pub fn new(service: u8) -> (r: Option<Self>)
        ensures
            r is Some <==> 1 <= service <= MAX_SERVICE,
            r matches Some(e) ==> e@.wf() && e@ == (Encoder708 {
                service,
                rows: 3,
                columns: 32,
                queue: seq![],
                since_define: REDEFINE_EVERY,
                dropped: 0,
            }),
    {
        if 1 <= service && service <= MAX_SERVICE {
            let e = Cc708Encoder {
                service,
                rows: 3,
                columns: 32,
                queue: VecDeque::new(),
                lines_since_define: REDEFINE_EVERY,
                dropped_units: 0,
            };
            assert(e@.queue == Seq::<UnitBytes>::empty());
            Some(e)
        } else {
            None
        }
    }

    pub fn service(&self) -> (r: u8)
        ensures
            r == self@.service,
    {
        self.service
    }

    /// Window size: rows 1-12, columns 1-42 (32 for 4:3 safe area). Takes effect
    /// at the next window definition.
    pub fn set_window(&mut self, rows: u8, columns: u8)
        requires
            old(self)@.wf(),
        ensures
            final(self)@.wf(),
            final(self)@ == (Encoder708 {
                rows: if rows < 1 {
                    1
                } else if rows > 12 {
                    12
                } else {
                    rows
                },
                columns: if columns < 1 {
                    1
                } else if columns > 42 {
                    42
                } else {
                    columns
                },
                since_define: REDEFINE_EVERY,
                ..old(self)@
            }),
    {
        self.rows = if rows < 1 {
            1
        } else if rows > 12 {
            12
        } else {
            rows
        };
        self.columns = if columns < 1 {
            1
        } else if columns > 42 {
            42
        } else {
            columns
        };
        self.lines_since_define = REDEFINE_EVERY;
    }

    /// Queues `text` as roll-up lines (wrapped at the window width; `\n` breaks).
    pub fn push_text(&mut self, text: &str)
        requires
            old(self)@.wf(),
        ensures
            final(self)@.wf(),
            final(self)@ == old(self)@.captioned(text@),
    {
        let lines = wrap(cells_708(text).as_slice(), self.columns as usize);
        let ghost all = line_shapes(lines@);
        let ghost target = self@.lined_all(all);
        assert(all.skip(0) == all);
        let mut i: usize = 0;
        while i < lines.len()
            invariant
                i <= lines.len(),
                all == line_shapes(lines@),
                self@.wf(),
                target == self@.lined_all(all.skip(i as int)),
            decreases lines.len() - i,
        {
            let ghost todo = all.skip(i as int);
            assert(todo[0] == shapes(lines@[i as int]@));
            assert(todo.drop_first() == all.skip(i + 1));
            self.line(&lines[i]);
            i = i + 1;
        }
        assert(all.skip(i as int).len() == 0);
        self.trim();
    }

    /// Queues one line.
    fn line(&mut self, line: &Vec<Vec<u8>>)
        requires
            old(self)@.wf(),
        ensures
            final(self)@.wf(),
            final(self)@ == old(self)@.lined(shapes(line@)),
    {
        let ghost before = self@;
        let ghost cells = shapes(line@);
        let mut first = true;
        let ghost mut sent: Seq<Seq<u8>> = seq![];
        assert(self@.queue == before.queue + units_of(sent, true));
        if self.lines_since_define >= REDEFINE_EVERY {
            let mut units = self.window_definition();
            let ghost all = shapes(units@);
            let mut k: usize = 0;
            while k < 4
                invariant
                    k <= 4,
                    units.len() == 4,
                    all.len() == 4,
                    forall|j: int| k <= j < 4 ==> all[j] == #[trigger] units@[j]@,
                    sent == all.take(k as int),
                    first == (k == 0),
                    self@ == (Encoder708 { queue: self@.queue, ..before }),
                    self@.queue == before.queue + units_of(sent, true),
                decreases 4 - k,
            {
                let mut unit: Vec<u8> = Vec::new();
                let ghost bytes = units@[k as int]@;
                std::mem::swap(&mut unit, &mut units[k]);
                let ghost prev = self@.queue;
                self.push(unit, first);
                first = false;
                proof {
                    assert(all[k as int] == bytes);
                    assert(all.take(k + 1) == all.take(k as int).push(bytes));
                    assert(units_of(sent.push(bytes), true) == units_of(sent, true).push(
                        UnitBytes { bytes, line_start: k == 0 },
                    ));
                    sent = sent.push(bytes);
                    assert(self@.queue == before.queue + units_of(sent, true));
                }
                k = k + 1;
            }
            self.lines_since_define = 0;
            assert(all.take(4) == all);
            assert(all =~= window_units(before.rows, before.columns));
        }
        let ghost head = sent;
        let start: Vec<u8> = vec![CR];
        assert(start@ == seq![CR]);
        self.push(start, first);
        proof {
            let cr = seq![CR];
            assert(units_of(head.push(cr), true) == units_of(head, true).push(
                UnitBytes { bytes: cr, line_start: head.len() == 0 },
            ));
            assert(self@.queue =~= before.queue + units_of(head.push(cr), true));
            sent = head.push(cr);
        }
        let ghost started = sent;
        assert(cells.take(0) == Seq::<Seq<u8>>::empty());
        assert(started + cells.take(0) == started);
        for i in 0..line.len()
            invariant
                cells == shapes(line@),
                started.len() > 0,
                self@ == (Encoder708 {
                    queue: self@.queue,
                    since_define: self@.since_define,
                    ..before
                }),
                self@.since_define < REDEFINE_EVERY,
                self@.since_define == (if before.since_define >= REDEFINE_EVERY {
                    0
                } else {
                    before.since_define
                }),
                self@.queue == before.queue + units_of(started + cells.take(i as int), true),
        {
            let cell = line[i].duplicate();
            let ghost bytes = cell@;
            assert(bytes == cells[i as int]);
            self.push(cell, false);
            proof {
                let done = started + cells.take(i as int);
                assert(started + cells.take(i + 1) == done.push(bytes));
                assert(units_of(done.push(bytes), true) == units_of(done, true).push(
                    UnitBytes { bytes, line_start: false },
                ));
            }
        }
        assert(cells.take(cells.len() as int) == cells);
        let end: Vec<u8> = vec![ETX];
        assert(end@ == seq![ETX]);
        self.push(end, false);
        self.lines_since_define = self.lines_since_define + 1;
        proof {
            let etx = seq![ETX];
            let done = started + cells;
            assert(units_of(done.push(etx), true) == units_of(done, true).push(
                UnitBytes { bytes: etx, line_start: false },
            ));
            assert(done.push(etx) =~= before.line_bytes(cells));
            assert(self@ =~= before.lined(cells));
        }
    }

    /// Clears window 0 (ClearWindows with bitmap 0x01).
    pub fn clear(&mut self)
        requires
            old(self)@.wf(),
        ensures
            final(self)@.wf(),
            final(self)@ == old(self)@.pushed(seq![0x88u8, 0x01u8], true),
    {
        self.push(vec![CLW, 0x01], true);
        assert(seq![CLW, 0x01u8] =~= self@.queue.last().bytes);
    }

    /// Deletes the character before the pen (BS).
    pub fn backspace(&mut self)
        requires
            old(self)@.wf(),
        ensures
            final(self)@.wf(),
            final(self)@ == old(self)@.pushed(seq![0x08u8], false),
    {
        self.push(vec![BS], false);
        assert(seq![BS] =~= self@.queue.last().bytes);
    }

    /// Queued bytes not yet packed.
    pub fn pending_bytes(&self) -> (r: usize)
        requires
            total_bytes(self@.queue) <= usize::MAX,
        ensures
            r == total_bytes(self@.queue),
    {
        let mut n: usize = 0;
        let ghost all = self@.queue;
        assert(all.take(0) == Seq::<UnitBytes>::empty());
        for i in 0..self.queue.len()
            invariant
                all == unit_views(self.queue@),
                n == total_bytes(all.take(i as int)),
                total_bytes(all) <= usize::MAX,
        {
            proof {
                assert(all.take(i + 1).drop_last() == all.take(i as int));
                lemma_total_grows(all, i + 1);
            }
            n = n + self.queue[i].bytes.len();
        }
        assert(all.take(all.len() as int) == all);
        n
    }

    pub fn is_idle(&self) -> (r: bool)
        ensures
            r == (self@.queue.len() == 0),
    {
        self.queue.len() == 0
    }

    /// How many units wait.
    pub fn pending(&self) -> (r: usize)
        ensures
            r == self@.queue.len(),
    {
        self.queue.len()
    }

    /// Units discarded because the queue exceeded [`MAX_QUEUE_UNITS`].
    pub fn dropped_units(&self) -> (r: u64)
        ensures
            r == self@.dropped,
    {
        self.dropped_units
    }

    /// Takes whole units totalling at most `max` bytes (service-block payload).
    pub fn take_block(&mut self, max: usize) -> (r: Vec<u8>)
        requires
            old(self)@.wf(),
        ensures
            final(self)@.wf(),
            r@ == taken(old(self)@.queue, max as int).block,
            r@.len() <= max,
            final(self)@ == old(self)@.after_block(max as int),
    {
        let mut block: Vec<u8> = Vec::new();
        let ghost all = self@.queue;
        let ghost want = taken(all, max as int);
        let ghost mut n: int = 0;
        let ghost mut lost: nat = 0;
        assert(all.skip(0) == all);
        loop
            invariant
                0 <= n <= all.len(),
                self@.queue == all.skip(n),
                self@ == (Encoder708 {
                    queue: all.skip(n),
                    dropped: counted(old(self)@.dropped, lost),
                    ..old(self)@
                }),
                block.len() <= max,
                want.units == n + taken(all.skip(n), max - block.len()).units,
                want.block == block@ + taken(all.skip(n), max - block.len()).block,
                want.dropped == lost + taken(all.skip(n), max - block.len()).dropped,
            ensures
                want.units == n,
                want.block == block@,
                want.dropped == lost,
            decreases all.len() - n,
        {
            let ghost before = self@.queue;
            let ghost here = block@;
            if self.queue.len() == 0 {
                assert(block@ + Seq::<u8>::empty() == block@);
                break;
            }
            let size: usize = self.queue[0].bytes.len();
            assert(before[0] == self.queue@[0]@);
            assert(before.drop_first() == all.skip(n + 1));
            if size > MAX_BLOCK {
                // Can never fit a service block; drop rather than stall.
                let _ = self.queue.pop_front();
                self.dropped_units = count(self.dropped_units, 1);
                proof {
                    assert(self@.queue == all.skip(n + 1));
                    n = n + 1;
                    lost = lost + 1;
                }
                continue;
            }
            if size > max - block.len() {
                assert(block@ + Seq::<u8>::empty() == block@);
                break;
            }
            if let Some(mut unit) = self.queue.pop_front() {
                let ghost bytes = unit.bytes@;
                block.append(&mut unit.bytes);
                proof {
                    assert(self@.queue == all.skip(n + 1));
                    let next = taken(all.skip(n + 1), max - block.len()).block;
                    assert(here + bytes + next == here + (bytes + next));
                    n = n + 1;
                }
            }
        }
        block
    }

    fn push(&mut self, bytes: Vec<u8>, line_start: bool)
        ensures
            final(self)@ == old(self)@.pushed(bytes@, line_start),
    {
        let unit = Unit { bytes, line_start };
        let ghost before = self@.queue;
        self.queue.push_back(unit);
        assert(self@.queue == before.push(unit@));
    }

    fn trim(&mut self)
        requires
            old(self)@.wf(),
        ensures
            final(self)@.wf(),
            final(self)@ == old(self)@.trimmed(),
    {
        let ghost all = self@.queue;
        proof {
            law_trimmed_at_a_line(self@);
        }
        if self.queue.len() <= MAX_QUEUE_UNITS {
            return;
        }
        let mut k: usize = 1;
        while k < self.queue.len() && !(self.queue[k].line_start && self.queue.len() - k
            <= MAX_QUEUE_UNITS)
            invariant
                1 <= k <= all.len(),
                self@ == old(self)@,
                self@.queue == all,
                all == unit_views(self.queue@),
                next_cut(all, 1) == next_cut(all, k as int),
            decreases all.len() - k,
        {
            assert(all[k as int] == self.queue@[k as int]@);
            k = k + 1;
        }
        assert(k < all.len() ==> all[k as int] == self.queue@[k as int]@);
        self.dropped_units = count(self.dropped_units, k as u64);
        // The window definition may have been dropped; resend it next line.
        self.lines_since_define = REDEFINE_EVERY;
        let mut i: usize = 0;
        assert(all.skip(0) == all);
        while i < k
            invariant
                i <= k <= all.len(),
                self@.queue == all.skip(i as int),
                self@ == (Encoder708 {
                    queue: all.skip(i as int),
                    since_define: REDEFINE_EVERY,
                    dropped: counted(old(self)@.dropped, k as nat),
                    ..old(self)@
                }),
            decreases k - i,
        {
            let ghost before = self@.queue;
            let _ = self.queue.pop_front();
            assert(self@.queue == before.drop_first());
            assert(before.drop_first() == all.skip(i + 1));
            i = i + 1;
        }
    }

    /// DefineWindow 0 (visible, bottom-centre, roll-up style) + attributes.
    fn window_definition(&self) -> (r: Vec<Vec<u8>>)
        requires
            self@.wf(),
        ensures
            shapes(r@) == window_units(self@.rows, self@.columns),
            r@.len() == 4,
    {
        // DF0: 0 0 v rl cl p2 p1 p0 | rp av(7) | ah(8) | ap(4) rc(4) | 0 0 cc(6) | 0 0 ws(3) ps(3)
        let df: Vec<u8> = vec![
            DF0,
            0x20,  // visible, priority 0
            0xDA,  // relative positioning, 90% down
            50,  // 50% across
            0x70 + (self.rows - 1),  // anchor bottom-centre, row count
            self.columns - 1,  // column count
            0x21,  // window style 4 (NTSC roll-up), pen style 1
        ];
        // SWA: fill solid black; no border; left-justify, scroll bottom to top; snap.
        let swa: Vec<u8> = vec![SWA, 0x00, 0x00, 0x0C, 0x00];
        // SPA: standard size, normal offset, no text tag; font style 0, no edge/italic/underline.
        let spa: Vec<u8> = vec![SPA, 0x05, 0x00];
        // SPC: white on solid black, black edge.
        let spc: Vec<u8> = vec![SPC, 0x3F, 0x00, 0x00];
        let ghost want = window_units(self@.rows, self@.columns);
        assert(df@ == want[0]);
        assert(swa@ == want[1]);
        assert(spa@ == want[2]);
        assert(spc@ == want[3]);
        let r = vec![df, swa, spa, spc];
        assert(shapes(r@) =~= want);
        r
    }
}

proof fn lemma_total_grows(queue: Seq<UnitBytes>, n: int)
    requires
        0 <= n <= queue.len(),
    ensures
        total_bytes(queue.take(n)) <= total_bytes(queue),
    decreases queue.len() - n,
{
    if n < queue.len() {
        lemma_total_grows(queue, n + 1);
        assert(queue.take(n + 1).drop_last() == queue.take(n));
    } else {
        assert(queue.take(n) == queue);
    }
}

} // verus!
