//! Minimal, defensive MPEG-TS parser: PAT -> PMT -> first video PID -> PES starts.
//!
//! Never panics on bad input: malformed packets and sections are counted in
//! [`Stats`] and skipped. For each video PES it reports the wallclock of the
//! datagram that carried its first packet, its PTS (33-bit, unwrapped to a
//! monotonic i64), a sequence number, and a hash of the PES payload tail (used
//! to match frames whose PTS was rewritten; see [`crate::report`]).
use std::collections::HashMap;
use vstd::prelude::*;
use vstd::slice::{slice_subrange, slice_to_vec};

use crate::annexb::without_trailing_zeros;
use crate::counter::{count, counted};
use crate::decimal::{decimal, push_decimal, push_text};

verus! {

broadcast use vstd::std_specs::hash::group_hash_axioms;

pub const TS_PACKET: usize = 188;

pub const PTS_WRAP: i64 = 0x2_0000_0000;

/// Bytes of PES payload tail kept for the content hash.
pub const TAIL_KEEP: usize = 256;

/// Bytes (after trimming trailing zeros) that go into the hash.
pub const TAIL_HASH: usize = 128;

#[derive(Clone, Copy, Debug)]
pub struct Stats {
    pub packets: u64,
    pub bad_sync: u64,
    pub bad_bytes: u64,
    pub tei: u64,
    pub bad_af: u64,
    pub bad_section: u64,
    pub crc_errors: u64,
    pub pat_changes: u64,
    pub pmt_changes: u64,
    pub cc_errors: u64,
    pub pes_bad_header: u64,
    pub pes_no_pts: u64,
    pub pts_wraps: u64,
    pub frames: u64,
}

/// Counters that have not counted yet.
pub open spec fn no_stats() -> Stats {
    Stats {
        packets: 0,
        bad_sync: 0,
        bad_bytes: 0,
        tei: 0,
        bad_af: 0,
        bad_section: 0,
        crc_errors: 0,
        pat_changes: 0,
        pmt_changes: 0,
        cc_errors: 0,
        pes_bad_header: 0,
        pes_no_pts: 0,
        pts_wraps: 0,
        frames: 0,
    }
}

impl Default for Stats {
    fn default() -> (r: Self)
        ensures
            r == no_stats(),
    {
        Stats {
            packets: 0,
            bad_sync: 0,
            bad_bytes: 0,
            tei: 0,
            bad_af: 0,
            bad_section: 0,
            crc_errors: 0,
            pat_changes: 0,
            pmt_changes: 0,
            cc_errors: 0,
            pes_bad_header: 0,
            pes_no_pts: 0,
            pts_wraps: 0,
            frames: 0,
        }
    }
}

/// One video PES (normally one frame / access unit).
#[derive(Clone, Copy, Debug, PartialEq, Eq)]
pub struct Frame {
    pub wall_ns: i64,
    /// Unwrapped PTS in 90 kHz ticks; `None` if the PES header had no PTS.
    pub pts: Option<i64>,
    pub seq: u64,
    /// FNV-1a of the last payload bytes (trailing zeros trimmed); 0 if empty.
    pub tail_hash: u64,
}

/// Unwraps 33-bit timestamps: the last one taken over, and what was added to it.
#[derive(Clone, Copy, Debug)]
pub struct PtsUnwrap {
    pub last_raw: Option<i64>,
    pub base: i64,
}

impl PtsUnwrap {
    /// The last timestamp is a 33-bit one.
    pub open spec fn wf(self) -> bool {
        self.last_raw matches Some(r) ==> 0 <= r < PTS_WRAP
    }

    /// `raw` lies more than half the range below the last timestamp: forward
    /// across the 2^33 boundary.
    pub open spec fn wrapped(self, raw: i64) -> bool {
        self.last_raw matches Some(last) && last - raw > PTS_WRAP / 2
    }

    /// `raw` lies more than half the range above the last timestamp: a late value
    /// from before the boundary.
    pub open spec fn late(self, raw: i64) -> bool {
        self.last_raw matches Some(last) && raw - last > PTS_WRAP / 2
    }

    /// The unwrapped value of `raw`.
    pub open spec fn value(self, raw: i64) -> i64 {
        if self.wrapped(raw) {
            raw.wrapping_add(self.base.wrapping_add(PTS_WRAP))
        } else if self.late(raw) {
            raw.wrapping_add(self.base.wrapping_sub(PTS_WRAP))
        } else {
            raw.wrapping_add(self.base)
        }
    }

    /// The state once `raw` was seen. A late value does not move it.
    pub open spec fn after(self, raw: i64) -> PtsUnwrap {
        if self.wrapped(raw) {
            PtsUnwrap { last_raw: Some(raw), base: self.base.wrapping_add(PTS_WRAP) }
        } else if self.late(raw) {
            self
        } else {
            PtsUnwrap { last_raw: Some(raw), base: self.base }
        }
    }

    /// Returns the unwrapped value and whether a forward wrap happened.
    pub fn unwrap(&mut self, raw: i64) -> (r: (i64, bool))
        requires
            old(self).wf(),
            0 <= raw < PTS_WRAP,
        ensures
            *final(self) == old(self).after(raw),
            final(self).wf(),
            r.0 == old(self).value(raw),
            r.1 == old(self).wrapped(raw),
    {
        let half: i64 = PTS_WRAP / 2;
        match self.last_raw {
            None => {
                self.last_raw = Some(raw);
                (raw.wrapping_add(self.base), false)
            },
            Some(last) => {
                if last - raw > half {
                    // Forward across the 2^33 boundary.
                    self.base = self.base.wrapping_add(PTS_WRAP);
                    self.last_raw = Some(raw);
                    (raw.wrapping_add(self.base), true)
                } else if raw - last > half {
                    // A late value from before the wrap: don't move the state.
                    (raw.wrapping_add(self.base.wrapping_sub(PTS_WRAP)), false)
                } else {
                    self.last_raw = Some(raw);
                    (raw.wrapping_add(self.base), false)
                }
            },
        }
    }
}

/// An unwrapped timestamp is the raw one, a whole number of wraps apart.
pub proof fn law_unwrapped_is_congruent(u: PtsUnwrap, raw: i64)
    requires
        u.base % 0x2_0000_0000 == 0,
    ensures
        (u.value(raw) - raw) % 0x2_0000_0000 == 0,
        u.after(raw).base % 0x2_0000_0000 == 0,
{
}

/// Consecutive timestamps unwrap to values exactly as far apart as they were
/// before they were cut to 33 bits, if that is less than half the range and no
/// value leaves the 64-bit range.
pub proof fn law_unwrapping_keeps_distances(u: PtsUnwrap, first: i64, second: i64, distance: int)
    requires
        u.wf(),
        0 <= first < 0x2_0000_0000,
        0 <= second < 0x2_0000_0000,
        -0x1_0000_0000 < distance < 0x1_0000_0000,
        (first + distance) % 0x2_0000_0000 == second as int,
        -0x4000_0000_0000_0000 < u.base < 0x4000_0000_0000_0000,
        !u.late(first),
    ensures
        u.after(first).value(second) - u.value(first) == distance,
{
}

pub open spec fn video_type(stream_type: u8) -> bool {
    stream_type == 0x01 || stream_type == 0x02 || stream_type == 0x10 || stream_type == 0x1B
        || stream_type == 0x24 || stream_type == 0x33 || stream_type == 0xD2 || stream_type == 0xD4
}

fn is_video(stream_type: u8) -> (r: bool)
    ensures
        r == video_type(stream_type),
{
    // MPEG-1/2 video, MPEG-4 part 2, H.264, HEVC, VVC, AVS2/3.
    matches!(stream_type, 0x01 | 0x02 | 0x10 | 0x1B | 0x24 | 0x33 | 0xD2 | 0xD4)
}

/// One step of the CRC register: shift left, subtract the polynomial if a one
/// fell out.
pub open spec fn crc_bit(crc: u32) -> u32 {
    if crc & 0x8000_0000 != 0 {
        (crc << 1) ^ 0x04C1_1DB7
    } else {
        crc << 1
    }
}

/// Eight steps of the CRC register with a byte fed into its top.
pub open spec fn crc_byte(crc: u32, b: u8) -> u32 {
    let half = crc_bit(crc_bit(crc_bit(crc_bit(crc ^ ((b as u32) << 24)))));
    crc_bit(crc_bit(crc_bit(crc_bit(half))))
}

/// CRC-32/MPEG-2: register all ones, bytes fed most significant bit first.
pub open spec fn crc32(data: Seq<u8>) -> u32
    decreases data.len(),
{
    if data.len() == 0 {
        0xFFFF_FFFF
    } else {
        crc_byte(crc32(data.drop_last()), data.last())
    }
}

fn crc_step(crc: u32) -> (r: u32)
    ensures
        r == crc_bit(crc),
{
    if crc & 0x8000_0000 != 0 {
        (crc << 1) ^ 0x04C1_1DB7
    } else {
        crc << 1
    }
}

pub fn crc32_mpeg2(data: &[u8]) -> (r: u32)
    ensures
        r == crc32(data@),
{
    let mut crc: u32 = 0xFFFF_FFFF;
    for i in 0..data.len()
        invariant
            crc == crc32(data@.take(i as int)),
    {
        assert(data@.take(i + 1).drop_last() =~= data@.take(i as int));
        let a: u32 = crc ^ ((data[i] as u32) << 24);
        let half: u32 = crc_step(crc_step(crc_step(crc_step(a))));
        crc = crc_step(crc_step(crc_step(crc_step(half))));
    }
    assert(data@.take(data@.len() as int) =~= data@);
    crc
}

/// A 32-bit number as four bytes, most significant first.
pub open spec fn be_bytes(crc: u32) -> Seq<u8> {
    seq![
        ((crc >> 24) & 0xFF) as u8,
        ((crc >> 16) & 0xFF) as u8,
        ((crc >> 8) & 0xFF) as u8,
        (crc & 0xFF) as u8,
    ]
}

/// Data with its CRC behind it has the CRC zero: that is how a section is
/// checked.
pub proof fn law_crc_of_checked_data_is_zero(data: Seq<u8>)
    ensures
        crc32(data + be_bytes(crc32(data))) == 0,
{
    let c = crc32(data);
    let b1 = ((c >> 24) & 0xFF) as u8;
    let b2 = ((c >> 16) & 0xFF) as u8;
    let b3 = ((c >> 8) & 0xFF) as u8;
    let b4 = (c & 0xFF) as u8;
    let s1 = data.push(b1);
    let s2 = s1.push(b2);
    let s3 = s2.push(b3);
    let s4 = s3.push(b4);
    assert(s1.drop_last() =~= data);
    assert(s2.drop_last() =~= s1);
    assert(s3.drop_last() =~= s2);
    assert(s4.drop_last() =~= s3);
    assert(data + be_bytes(c) =~= s4);
    let c1 = crc_byte(c, b1);
    let c2 = crc_byte(c1, b2);
    let c3 = crc_byte(c2, b3);
    assert(c1 == c << 8) by (bit_vector)
        requires
            b1 == ((c >> 24) & 0xFF) as u8,
            c1 == crc_byte(c, b1),
    ;
    assert(c2 == c << 16) by (bit_vector)
        requires
            b2 == ((c >> 16) & 0xFF) as u8,
            c1 == c << 8,
            c2 == crc_byte(c1, b2),
    ;
    assert(c3 == c << 24) by (bit_vector)
        requires
            b3 == ((c >> 8) & 0xFF) as u8,
            c2 == c << 16,
            c3 == crc_byte(c2, b3),
    ;
    assert(crc_byte(c3, b4) == 0) by (bit_vector)
        requires
            b4 == (c & 0xFF) as u8,
            c3 == c << 24,
    ;
    assert(crc32(s1) == c1);
    assert(crc32(s2) == c2);
    assert(crc32(s3) == c3);
}

/// FNV-1a, 64 bit.
pub open spec fn fnv(data: Seq<u8>) -> u64
    decreases data.len(),
{
    if data.len() == 0 {
        0xcbf2_9ce4_8422_2325
    } else {
        (fnv(data.drop_last()) ^ (data.last() as u64)).wrapping_mul(0x0100_0000_01b3)
    }
}

fn fnv1a(data: &[u8]) -> (r: u64)
    ensures
        r == fnv(data@),
{
    let mut h: u64 = 0xcbf2_9ce4_8422_2325;
    for i in 0..data.len()
        invariant
            h == fnv(data@.take(i as int)),
    {
        assert(data@.take(i + 1).drop_last() =~= data@.take(i as int));
        h = (h ^ (data[i] as u64)).wrapping_mul(0x0100_0000_01b3);
    }
    assert(data@.take(data@.len() as int) =~= data@);
    h
}

/// The 33-bit timestamp in five bytes of a PES header.
pub open spec fn pts_bits(b: Seq<u8>) -> int {
    ((b[0] >> 1) & 7) * 0x4000_0000 + b[1] * 0x40_0000 + (b[2] >> 1) * 0x8000 + b[3] * 0x80 + (b[4]
        >> 1)
}

/// The 33-bit timestamp in the first five bytes, if there are five.
pub fn parse_pts(b: &[u8]) -> (r: Option<i64>)
    ensures
        r is Some <==> b@.len() >= 5,
        r matches Some(v) ==> v == pts_bits(b@) && 0 <= v < PTS_WRAP,
{
    if b.len() < 5 {
        return None;
    }
    let b0: u8 = b[0];
    let b2: u8 = b[2];
    let b4: u8 = b[4];
    assert((b0 >> 1) & 7 <= 7) by (bit_vector);
    assert(b2 >> 1 <= 127) by (bit_vector);
    assert(b4 >> 1 <= 127) by (bit_vector);
    Some(
        ((b0 >> 1) & 7) as i64 * 0x4000_0000 + b[1] as i64 * 0x40_0000 + (b2 >> 1) as i64 * 0x8000
            + b[3] as i64 * 0x80 + (b4 >> 1) as i64,
    )
}

/// A table section while it is put together.
#[verifier::ext_equal]
pub struct Section {
    pub buf: Seq<u8>,
    pub active: bool,
}

/// A PES while its packets come in.
#[verifier::ext_equal]
pub struct Pes {
    pub wall_ns: i64,
    pub pts: Option<i64>,
    pub seq: u64,
    pub tail: Seq<u8>,
}

/// The state of a parser.
#[verifier::ext_equal]
pub struct Ts {
    pub stats: Stats,
    /// The program followed (0 = first program in the PAT).
    pub program: u16,
    pub pmt_pid: Option<u16>,
    pub video_pid: Option<u16>,
    pub video_stream_type: u8,
    pub pat_crc: Option<u32>,
    pub pmt_crc: Option<u32>,
    pub sections: Map<u16, Section>,
    pub last_cc: Option<u8>,
    pub pes: Option<Pes>,
    pub unwrap: PtsUnwrap,
    pub seq: u64,
    /// The partial packet at the end of the last chunk.
    pub carry: Seq<u8>,
    pub events: Seq<Seq<char>>,
}

/// A section that nothing has gone into yet.
pub open spec fn no_section() -> Section {
    Section { buf: seq![], active: false }
}

/// A PID as an event shows it.
pub open spec fn shown_pid(pid: Option<u16>) -> Seq<char> {
    match pid {
        Some(n) => "Some("@ + decimal(n as nat) + ")"@,
        None => "None"@,
    }
}

/// The text of a PID change.
pub open spec fn change_text(what: Seq<char>, from: Option<u16>, to: Option<u16>) -> Seq<char> {
    what + shown_pid(from) + " -> "@ + shown_pid(to)
}

/// Thirteen bits of a PID.
pub open spec fn pid_bits(hi: u8, lo: u8) -> u16 {
    ((hi & 0x1F) * 256 + lo) as u16
}

/// The PMT PID of the program followed: the first in the table with its number,
/// or of any number but 0 (the network PID) if none is given.
pub open spec fn program_pid(body: Seq<u8>, i: int, program: u16) -> Option<u16>
    decreases body.len() - i,
{
    if i + 4 > body.len() {
        None
    } else {
        let number = body[i] * 256 + body[i + 1];
        if number != 0 && (program == 0 || number == program) {
            Some(pid_bits(body[i + 2], body[i + 3]))
        } else {
            program_pid(body, i + 4, program)
        }
    }
}

/// Twelve bits of a length.
pub open spec fn length_bits(hi: u8, lo: u8) -> nat {
    (hi & 0x0F) as nat * 256 + lo as nat
}

/// PID and type of the first video stream in the table.
pub open spec fn first_video(body: Seq<u8>, i: int) -> Option<(u16, u8)>
    decreases body.len() - i,
{
    if i + 5 > body.len() {
        None
    } else if video_type(body[i]) {
        Some((pid_bits(body[i + 1], body[i + 2]), body[i]))
    } else {
        let next = i + 5 + length_bits(body[i + 3], body[i + 4]);
        if next > body.len() {
            None
        } else {
            first_video(body, next)
        }
    }
}

/// The length of the section at the front of a buffer, if it is all there.
pub open spec fn section_length(buf: Seq<u8>) -> Option<int> {
    if buf.len() < 3 {
        None
    } else {
        let n = 3int + length_bits(buf[1], buf[2]);
        if buf.len() < n {
            None
        } else {
            Some(n)
        }
    }
}

/// The section at the front of a buffer, as a list of one, or none.
pub open spec fn front_section(buf: Seq<u8>) -> Seq<Seq<u8>> {
    match section_length(buf) {
        Some(n) => seq![buf.take(n)],
        None => seq![],
    }
}

/// What is pulled out of a buffer: its complete sections and what is left to
/// put together. Stuffing (0xFF) or the end closes it.
pub open spec fn pulled(buf: Seq<u8>) -> (Seq<Seq<u8>>, Section)
    decreases buf.len(),
{
    if buf.len() == 0 || buf[0] == 0xFF {
        (seq![], no_section())
    } else {
        match section_length(buf) {
            Some(n) => {
                if n < 3 || n > buf.len() {
                    (seq![], no_section())
                } else {
                    let rest = pulled(buf.skip(n));
                    (seq![buf.take(n)] + rest.0, rest.1)
                }
            },
            None => (seq![], Section { buf, active: true }),
        }
    }
}

/// Payload bytes kept: all of them until they pass twice [`TAIL_KEEP`], then the
/// last [`TAIL_KEEP`].
pub open spec fn kept_tail(tail: Seq<u8>) -> Seq<u8> {
    if tail.len() > 2 * TAIL_KEEP {
        tail.skip(tail.len() - TAIL_KEEP)
    } else {
        tail
    }
}

/// The content hash of a PES tail: of its last bytes without trailing zeros.
pub open spec fn tail_hash(tail: Seq<u8>) -> u64 {
    let t = without_trailing_zeros(tail);
    if t.len() == 0 {
        0
    } else if t.len() > TAIL_HASH {
        fnv(t.skip(t.len() - TAIL_HASH))
    } else {
        fnv(t)
    }
}

/// A sync byte stands at `i`, followed by another a packet later or by the end.
pub open spec fn in_sync(data: Seq<u8>, i: int) -> bool {
    data[i] == 0x47 && (i + TS_PACKET >= data.len() || data[i + TS_PACKET] == 0x47)
}

/// The first place from `i` on that is in sync, or the end.
pub open spec fn resync(data: Seq<u8>, i: int) -> int
    decreases data.len() - i,
{
    if i >= data.len() {
        data.len() as int
    } else if in_sync(data, i) {
        i
    } else {
        resync(data, i + 1)
    }
}

/// A packet's payload starts here: behind its header and adaptation field.
/// `None` if the packet has no field the control bits allow or one too long.
pub open spec fn payload_start(p: Seq<u8>) -> Option<int> {
    let afc = (p[3] >> 4) & 3;
    if afc == 0 {
        None
    } else if afc & 2 != 0 {
        if p[4] > (if afc == 2 { 183int } else { 182 }) {
            None
        } else {
            Some(5 + p[4])
        }
    } else {
        Some(4)
    }
}

impl Ts {
    /// What counts of a packet whose header makes no sense.
    pub open spec fn bad_af(self) -> Ts {
        Ts { stats: Stats { bad_af: counted(self.stats.bad_af, 1), ..self.stats }, ..self }
    }

    pub open spec fn bad_section(self) -> Ts {
        Ts { stats: Stats { bad_section: counted(self.stats.bad_section, 1), ..self.stats }, ..self }
    }

    /// The section put together on `pid`.
    pub open spec fn assembly(self, pid: u16) -> Section {
        if self.sections.contains_key(pid) {
            self.sections[pid]
        } else {
            no_section()
        }
    }

    /// A new program association table.
    #[verifier::opaque]
    pub open spec fn pat(self, crc: u32, body: Seq<u8>) -> Ts {
        if self.pat_crc == Some(crc) {
            self
        } else {
            let to = program_pid(body, 0, self.program);
            if to == self.pmt_pid {
                Ts { pat_crc: Some(crc), ..self }
            } else {
                Ts {
                    pat_crc: Some(crc),
                    pmt_pid: to,
                    pmt_crc: None,
                    sections: match self.pmt_pid {
                        Some(old_pid) => self.sections.remove(old_pid),
                        None => self.sections,
                    },
                    stats: Stats {
                        pat_changes: counted(
                            self.stats.pat_changes,
                            if self.pmt_pid is Some { 1 } else { 0 },
                        ),
                        ..self.stats
                    },
                    events: if self.pmt_pid is Some {
                        self.events.push(
                            change_text("PAT change: PMT PID "@, self.pmt_pid, to),
                        )
                    } else {
                        self.events
                    },
                    ..self
                }
            }
        }
    }

    /// A new program map table.
    #[verifier::opaque]
    pub open spec fn pmt(self, crc: u32, body: Seq<u8>) -> Ts {
        if self.pmt_crc == Some(crc) {
            self
        } else {
            let seen = Ts { pmt_crc: Some(crc), ..self };
            if body.len() < 4 {
                seen.bad_section()
            } else {
                let found = first_video(body, 4int + length_bits(body[2], body[3]));
                let to = match found {
                    Some(f) => Some(f.0),
                    None => None,
                };
                let typed = Ts {
                    video_stream_type: match found {
                        Some(f) => f.1,
                        None => self.video_stream_type,
                    },
                    ..seen
                };
                if to == self.video_pid {
                    typed
                } else {
                    Ts {
                        video_pid: to,
                        pes: None,
                        last_cc: None,
                        stats: Stats {
                            pmt_changes: counted(
                                self.stats.pmt_changes,
                                if self.video_pid is Some { 1 } else { 0 },
                            ),
                            ..self.stats
                        },
                        events: if self.video_pid is Some {
                            self.events.push(
                                change_text("PMT change: video PID "@, self.video_pid, to),
                            )
                        } else {
                            self.events
                        },
                        ..typed
                    }
                }
            }
        }
    }

    /// A complete section. One too short or with a wrong CRC counts as an error,
    /// one that is not in force yet is skipped.
    #[verifier::opaque]
    pub open spec fn section(self, pid: u16, s: Seq<u8>) -> Ts {
        if s.len() < 12 || crc32(s) != 0 {
            Ts { stats: Stats { crc_errors: counted(self.stats.crc_errors, 1), ..self.stats }, ..self }
        } else if s[5] & 1 == 0 {
            self
        } else {
            let n = s.len() as int;
            let crc = (s[n - 4] * 0x100_0000 + s[n - 3] * 0x1_0000 + s[n - 2] * 0x100 + s[n
                - 1]) as u32;
            let body = s.subrange(8, n - 4);
            if pid == 0 && s[0] == 0 {
                self.pat(crc, body)
            } else if self.pmt_pid == Some(pid) && s[0] == 2 {
                self.pmt(crc, body)
            } else {
                self.bad_section()
            }
        }
    }

    /// Complete sections, one after the other.
    pub open spec fn all_sections(self, pid: u16, list: Seq<Seq<u8>>) -> Ts
        decreases list.len(),
    {
        if list.len() == 0 {
            self
        } else {
            self.section(pid, list[0]).all_sections(pid, list.drop_first())
        }
    }

    /// Payload of a table PID: what completes a section, and what starts the
    /// next. `pusi` says that the payload starts with a pointer to a new section.
    #[verifier::opaque]
    pub open spec fn psi(self, pid: u16, pusi: bool, payload: Seq<u8>) -> Ts {
        if payload.len() == 0 {
            self
        } else {
            let part = self.assembly(pid);
            let ptr = payload[0] as int;
            if pusi && 1 + ptr > payload.len() {
                Ts { sections: self.sections.insert(pid, no_section()), ..self.bad_section() }
            } else if !pusi && !part.active {
                Ts { sections: self.sections.insert(pid, part), ..self }
            } else {
                let early = if pusi && part.active {
                    front_section(part.buf + payload.subrange(1, 1 + ptr))
                } else {
                    seq![]
                };
                let buf = if pusi {
                    payload.skip(1 + ptr)
                } else {
                    part.buf + payload
                };
                let out = pulled(buf);
                if out.1.buf.len() > 4096 {
                    Ts {
                        sections: self.sections.insert(pid, no_section()),
                        ..self.bad_section()
                    }.all_sections(pid, early + out.0)
                } else {
                    Ts { sections: self.sections.insert(pid, out.1), ..self }.all_sections(
                        pid,
                        early + out.0,
                    )
                }
            }
        }
    }

    /// The frame of the PES in progress, if there is one.
    pub open spec fn finished_frames(self) -> Seq<Frame> {
        match self.pes {
            Some(pes) => seq![
                Frame {
                    wall_ns: pes.wall_ns,
                    pts: pes.pts,
                    seq: pes.seq,
                    tail_hash: tail_hash(pes.tail),
                },
            ],
            None => seq![],
        }
    }

    /// The state once the PES in progress is done.
    pub open spec fn finished(self) -> Ts {
        Ts {
            pes: None,
            stats: Stats {
                frames: counted(self.stats.frames, if self.pes is Some { 1 } else { 0 }),
                ..self.stats
            },
            ..self
        }
    }

    /// A payload that starts a PES.
    #[verifier::opaque]
    pub open spec fn pes_start(self, payload: Seq<u8>, wall_ns: i64) -> Ts {
        if payload.len() < 9 || payload[0] != 0 || payload[1] != 0 || payload[2] != 1 {
            Ts {
                stats: Stats { pes_bad_header: counted(self.stats.pes_bad_header, 1), ..self.stats },
                ..self
            }
        } else {
            let flagged = payload[7] & 0x80 != 0;
            let whole = flagged && payload.len() >= 14;
            let raw = pts_bits(payload.subrange(9, 14)) as i64;
            let start = 9 + payload[8];
            Ts {
                stats: Stats {
                    pts_wraps: counted(
                        self.stats.pts_wraps,
                        if whole && self.unwrap.wrapped(raw) { 1 } else { 0 },
                    ),
                    pes_bad_header: counted(
                        self.stats.pes_bad_header,
                        if flagged && !whole { 1 } else { 0 },
                    ),
                    pes_no_pts: counted(self.stats.pes_no_pts, if whole { 0 } else { 1 }),
                    ..self.stats
                },
                unwrap: if whole {
                    self.unwrap.after(raw)
                } else {
                    self.unwrap
                },
                seq: counted(self.seq, 1),
                pes: Some(
                    Pes {
                        wall_ns,
                        pts: if whole {
                            Some(self.unwrap.value(raw))
                        } else {
                            None
                        },
                        seq: counted(self.seq, 1),
                        tail: if start <= payload.len() {
                            kept_tail(payload.skip(start))
                        } else {
                            seq![]
                        },
                    },
                ),
                ..self
            }
        }
    }

    /// Payload of the video PID.
    pub open spec fn video(self, pusi: bool, payload: Seq<u8>, wall_ns: i64) -> Ts {
        if pusi {
            self.finished().pes_start(payload, wall_ns)
        } else {
            match self.pes {
                Some(pes) => Ts {
                    pes: Some(Pes { tail: kept_tail(pes.tail + payload), ..pes }),
                    ..self
                },
                None => self,
            }
        }
    }

    /// A video packet's continuity counter: it must be the next one, or the same
    /// again, unless the packet announces a discontinuity.
    pub open spec fn continued(self, cc: u8, discontinuity: bool) -> Ts {
        let broken = self.last_cc matches Some(last) && cc != (if last == 15 {
            0
        } else {
            last + 1
        }) && cc != last && !discontinuity;
        Ts {
            last_cc: Some(cc),
            stats: Stats {
                cc_errors: counted(self.stats.cc_errors, if broken { 1 } else { 0 }),
                ..self.stats
            },
            ..self
        }
    }

    /// The packet is counted.
    pub open spec fn packet_seen(self) -> Ts {
        Ts { stats: Stats { packets: counted(self.stats.packets, 1), ..self.stats }, ..self }
    }

    /// The packet belongs to the video stream, its header being good.
    pub open spec fn is_video_packet(self, p: Seq<u8>) -> bool {
        let pid = pid_bits(p[1], p[2]);
        &&& p[1] & 0x80 == 0
        &&& payload_start(p) is Some
        &&& pid != 0 && self.pmt_pid != Some(pid)
        &&& self.video_pid == Some(pid)
    }

    /// One packet of 188 bytes.
    #[verifier::opaque]
    pub open spec fn packet(self, p: Seq<u8>, wall_ns: i64) -> Ts {
        let seen = self.packet_seen();
        let pid = pid_bits(p[1], p[2]);
        let pusi = p[1] & 0x40 != 0;
        let afc = (p[3] >> 4) & 3;
        if p[1] & 0x80 != 0 {
            Ts { stats: Stats { tei: counted(self.stats.tei, 1), ..seen.stats }, ..seen }
        } else {
            match payload_start(p) {
                None => seen.bad_af(),
                Some(start) => {
                    let carries = afc & 1 != 0;
                    let payload = if carries {
                        p.skip(start)
                    } else {
                        seq![]
                    };
                    if pid == 0 || self.pmt_pid == Some(pid) {
                        seen.psi(pid, pusi, payload)
                    } else if self.video_pid == Some(pid) {
                        (if carries {
                            seen.continued(
                                p[3] & 0x0F,
                                afc & 2 != 0 && p[4] > 0 && p[5] & 0x80 != 0,
                            )
                        } else {
                            seen
                        }).video(pusi, payload, wall_ns)
                    } else {
                        seen
                    }
                },
            }
        }
    }

    /// The frame that one packet completes, if any.
    pub open spec fn packet_frames(self, p: Seq<u8>) -> Seq<Frame> {
        if self.is_video_packet(p) && p[1] & 0x40 != 0 {
            self.finished_frames()
        } else {
            seq![]
        }
    }

    /// A chunk of bytes from `i` on: packets where it is in sync, the rest skipped
    /// and counted, a partial packet at its end carried over.
    pub open spec fn aligned(self, data: Seq<u8>, i: int, wall_ns: i64) -> Ts
        decreases data.len() - i,
    {
        if i >= data.len() {
            self
        } else if data[i] != 0x47 {
            let j = resync(data, i + 1);
            if j <= i || j > data.len() {
                self
            } else {
                Ts {
                    stats: Stats {
                        bad_sync: counted(self.stats.bad_sync, 1),
                        bad_bytes: counted(self.stats.bad_bytes, (j - i) as nat),
                        ..self.stats
                    },
                    ..self
                }.aligned(data, j, wall_ns)
            }
        } else if i + TS_PACKET > data.len() {
            Ts { carry: data.skip(i), ..self }
        } else {
            self.packet(data.subrange(i, i + TS_PACKET), wall_ns).aligned(
                data,
                i + TS_PACKET,
                wall_ns,
            )
        }
    }

    /// The frames completed by a chunk of bytes from `i` on.
    pub open spec fn aligned_frames(self, data: Seq<u8>, i: int, wall_ns: i64) -> Seq<Frame>
        decreases data.len() - i,
    {
        if i >= data.len() {
            seq![]
        } else if data[i] != 0x47 {
            let j = resync(data, i + 1);
            if j <= i || j > data.len() {
                seq![]
            } else {
                Ts {
                    stats: Stats {
                        bad_sync: counted(self.stats.bad_sync, 1),
                        bad_bytes: counted(self.stats.bad_bytes, (j - i) as nat),
                        ..self.stats
                    },
                    ..self
                }.aligned_frames(data, j, wall_ns)
            }
        } else if i + TS_PACKET > data.len() {
            seq![]
        } else {
            let p = data.subrange(i, i + TS_PACKET);
            self.packet_frames(p) + self.packet(p, wall_ns).aligned_frames(
                data,
                i + TS_PACKET,
                wall_ns,
            )
        }
    }

    /// The state once a datagram was fed, behind what was carried over.
    pub open spec fn fed(self, data: Seq<u8>, wall_ns: i64) -> Ts {
        Ts { carry: seq![], ..self }.aligned(self.carry + data, 0, wall_ns)
    }

    /// The frames that a datagram completes.
    pub open spec fn fed_frames(self, data: Seq<u8>, wall_ns: i64) -> Seq<Frame> {
        Ts { carry: seq![], ..self }.aligned_frames(self.carry + data, 0, wall_ns)
    }

    /// The continuity counter has four bits, the last timestamp 33.
    pub open spec fn wf(self) -> bool {
        &&& self.unwrap.wf()
        &&& self.last_cc matches Some(cc) ==> cc <= 15
    }
}

struct PesState {
    wall_ns: i64,
    pts: Option<i64>,
    seq: u64,
    tail: Vec<u8>,
}

impl View for PesState {
    type V = Pes;

    closed spec fn view(&self) -> Pes {
        Pes { wall_ns: self.wall_ns, pts: self.pts, seq: self.seq, tail: self.tail@ }
    }
}

struct SectionAsm {
    buf: Vec<u8>,
    active: bool,
}

impl View for SectionAsm {
    type V = Section;

    closed spec fn view(&self) -> Section {
        Section { buf: self.buf@, active: self.active }
    }
}

pub struct TsParser {
    pub stats: Stats,
    /// Only follow this program number (0 = first program in the PAT).
    program: u16,
    pmt_pid: Option<u16>,
    video_pid: Option<u16>,
    pub video_stream_type: u8,
    pat_crc: Option<u32>,
    pmt_crc: Option<u32>,
    sections: HashMap<u16, SectionAsm>,
    last_cc: Option<u8>,
    pes: Option<PesState>,
    unwrap: PtsUnwrap,
    seq: u64,
    /// Partial packet left at the end of the previous chunk (datagrams that are not
    /// multiples of 188 bytes).
    carry: Vec<u8>,
    /// Human-readable events (PMT change etc.) for the caller to log.
    pub events: Vec<String>,
}

spec fn section_views(map: Map<u16, SectionAsm>) -> Map<u16, Section> {
    map.map_values(|a: SectionAsm| a@)
}

impl View for TsParser {
    type V = Ts;

    closed spec fn view(&self) -> Ts {
        Ts {
            stats: self.stats,
            program: self.program,
            pmt_pid: self.pmt_pid,
            video_pid: self.video_pid,
            video_stream_type: self.video_stream_type,
            pat_crc: self.pat_crc,
            pmt_crc: self.pmt_crc,
            sections: section_views(self.sections@),
            last_cc: self.last_cc,
            pes: match self.pes {
                Some(p) => Some(p@),
                None => None,
            },
            unwrap: self.unwrap,
            seq: self.seq,
            carry: self.carry@,
            events: self.events@.map_values(|s: String| s@),
        }
    }
}

fn push_pid(s: &mut String, pid: Option<u16>)
    ensures
        final(s)@ == old(s)@ + shown_pid(pid),
{
    match pid {
        Some(n) => {
            push_text(s, "Some(");
            push_decimal(s, n as u64);
            push_text(s, ")");
            assert(s@ =~= old(s)@ + shown_pid(pid));
        },
        None => push_text(s, "None"),
    }
}

fn change_event(what: &str, from: Option<u16>, to: Option<u16>) -> (r: String)
    ensures
        r@ == change_text(what@, from, to),
{
    let mut s = String::new();
    push_text(&mut s, what);
    push_pid(&mut s, from);
    push_text(&mut s, " -> ");
    push_pid(&mut s, to);
    assert(s@ =~= change_text(what@, from, to));
    s
}

fn pid_of(hi: u8, lo: u8) -> (r: u16)
    ensures
        r == pid_bits(hi, lo),
{
    assert(hi & 0x1F <= 0x1F) by (bit_vector);
    (hi & 0x1F) as u16 * 256 + lo as u16
}

fn length_of(hi: u8, lo: u8) -> (r: usize)
    ensures
        r == length_bits(hi, lo),
        r <= 4095,
{
    assert(hi & 0x0F <= 0x0F) by (bit_vector);
    (hi & 0x0F) as usize * 256 + lo as usize
}

fn push_tail(tail: &mut Vec<u8>, data: &[u8])
    ensures
        final(tail)@ == kept_tail(old(tail)@ + data@),
        final(tail)@.len() <= 2 * TAIL_KEEP,
{
    tail.extend_from_slice(data);
    assert(tail@ =~= old(tail)@ + data@);
    if tail.len() > TAIL_KEEP * 2 {
        let cut: usize = tail.len() - TAIL_KEEP;
        let rest = tail.split_off(cut);
        *tail = rest;
    }
}

/// What a PES keeps of its payload: the tail so far and the new bytes, cut to
/// the last [`TAIL_KEEP`] once they pass twice that.
pub fn extend_tail(tail: Vec<u8>, data: &[u8]) -> (r: Vec<u8>)
    ensures
        r@ == kept_tail(tail@ + data@),
{
    let mut r = tail;
    push_tail(&mut r, data);
    r
}

/// Removes one complete section from the front of the buffer, if present.
fn take_section(buf: &mut Vec<u8>) -> (r: Option<Vec<u8>>)
    ensures
        r is Some == section_length(old(buf)@) is Some,
        r is None ==> final(buf)@ == old(buf)@,
        r matches Some(s) ==> ({
            let n = section_length(old(buf)@)->0;
            &&& 3 <= n <= old(buf)@.len()
            &&& s@ == old(buf)@.take(n)
            &&& final(buf)@ == old(buf)@.skip(n)
        }),
{
    if buf.len() < 3 {
        return None;
    }
    let len: usize = 3 + length_of(buf[1], buf[2]);
    if buf.len() < len {
        return None;
    }
    let rest = buf.split_off(len);
    let mut front = rest;
    std::mem::swap(&mut front, buf);
    assert(front@ =~= old(buf)@.take(len as int));
    assert(buf@ =~= old(buf)@.skip(len as int));
    Some(front)
}

fn find_program(body: &[u8], program: u16) -> (r: Option<u16>)
    ensures
        r == program_pid(body@, 0, program),
{
    let mut i: usize = 0;
    while body.len() - i >= 4
        invariant
            i <= body@.len(),
            program_pid(body@, 0, program) == program_pid(body@, i as int, program),
        decreases body@.len() - i,
    {
        let number: u16 = body[i] as u16 * 256 + body[i + 1] as u16;
        if number != 0 && (program == 0 || number == program) {
            return Some(pid_of(body[i + 2], body[i + 3]));
        }
        i = i + 4;
    }
    None
}

fn find_video(body: &[u8], from: usize) -> (r: Option<(u16, u8)>)
    requires
        from <= 4099,
    ensures
        r == first_video(body@, from as int),
{
    let mut i: usize = from;
    while i <= body.len() && body.len() - i >= 5
        invariant
            first_video(body@, from as int) == first_video(body@, i as int),
        decreases body@.len() - i,
    {
        if is_video(body[i]) {
            return Some((pid_of(body[i + 1], body[i + 2]), body[i]));
        }
        let step: usize = 5 + length_of(body[i + 3], body[i + 4]);
        if body.len() - i < step {
            return None;
        }
        i = i + step;
    }
    None
}

impl TsParser {
    pub fn new(program: u16) -> (r: Self)
        ensures
            r@.wf(),
            r@ == (Ts {
                stats: no_stats(),
                program,
                pmt_pid: None,
                video_pid: None,
                video_stream_type: 0,
                pat_crc: None,
                pmt_crc: None,
                sections: Map::empty(),
                last_cc: None,
                pes: None,
                unwrap: PtsUnwrap { last_raw: None, base: 0 },
                seq: 0,
                carry: seq![],
                events: seq![],
            }),
    {
        let r = TsParser {
            stats: Stats::default(),
            program,
            pmt_pid: None,
            video_pid: None,
            video_stream_type: 0,
            pat_crc: None,
            pmt_crc: None,
            sections: HashMap::new(),
            last_cc: None,
            pes: None,
            unwrap: PtsUnwrap { last_raw: None, base: 0 },
            seq: 0,
            carry: Vec::new(),
            events: Vec::new(),
        };
        assert(r@.sections =~= Map::empty());
        assert(r@.events =~= seq![]);
        r
    }

    pub fn video_pid(&self) -> (r: Option<u16>)
        ensures
            r == self@.video_pid,
    {
        self.video_pid
    }

    /// Feeds one datagram (or any byte chunk that starts on a packet boundary,
    /// ideally). Completed frames are appended to `out`.
    pub fn feed(&mut self, data: &[u8], wall_ns: i64, out: &mut Vec<Frame>)
        requires
            old(self)@.wf(),
        ensures
            final(self)@.wf(),
            final(self)@ == old(self)@.fed(data@, wall_ns),
            final(out)@ == old(out)@ + old(self)@.fed_frames(data@, wall_ns),
    {
        if self.carry.len() == 0 {
            assert(self@.carry + data@ =~= data@);
            assert((Ts { carry: seq![], ..self@ }) =~= self@);
            self.feed_aligned(data, wall_ns, out);
        } else {
            let mut joined: Vec<u8> = Vec::new();
            std::mem::swap(&mut joined, &mut self.carry);
            joined.extend_from_slice(data);
            assert(joined@ =~= old(self)@.carry + data@);
            assert(self@ =~= (Ts { carry: seq![], ..old(self)@ }));
            self.feed_aligned(joined.as_slice(), wall_ns, out);
        }
    }

    fn feed_aligned(&mut self, data: &[u8], wall_ns: i64, out: &mut Vec<Frame>)
        requires
            old(self)@.wf(),
            old(self)@.carry.len() == 0,
        ensures
            final(self)@.wf(),
            final(self)@ == old(self)@.aligned(data@, 0, wall_ns),
            final(out)@ == old(out)@ + old(self)@.aligned_frames(data@, 0, wall_ns),
    {
        let ghost target = self@.aligned(data@, 0, wall_ns);
        let ghost frames = out@ + self@.aligned_frames(data@, 0, wall_ns);
        let mut i: usize = 0;
        while i < data.len()
            invariant_except_break
                i <= data@.len(),
                self@.wf(),
                self@.carry.len() == 0,
                target == self@.aligned(data@, i as int, wall_ns),
                frames == out@ + self@.aligned_frames(data@, i as int, wall_ns),
            ensures
                self@.wf(),
                target == self@,
                frames == out@,
            decreases data@.len() - i,
        {
            let ghost before = self@;
            let ghost done = out@;
            if data[i] != 0x47 {
                // Resync: next 0x47 that is followed by another 0x47 (or ends the buffer).
                let start: usize = i;
                i = i + 1;
                while i < data.len() && !(data[i] == 0x47 && (data.len() - i <= TS_PACKET
                    || data[i + TS_PACKET] == 0x47))
                    invariant
                        start < i <= data@.len(),
                        resync(data@, start + 1) == resync(data@, i as int),
                    decreases data@.len() - i,
                {
                    i = i + 1;
                }
                self.stats.bad_sync = count(self.stats.bad_sync, 1);
                self.stats.bad_bytes = count(self.stats.bad_bytes, (i - start) as u64);
                continue;
            }
            if data.len() - i < TS_PACKET {
                // Keep the partial packet for the next chunk.
                self.carry.extend_from_slice(slice_subrange(data, i, data.len()));
                assert(self.carry@ =~= data@.skip(i as int));
                assert(done + Seq::<Frame>::empty() =~= done);
                break;
            }
            let pkt = slice_subrange(data, i, i + TS_PACKET);
            self.packet(pkt, wall_ns, out);
            proof {
                let here = before.packet_frames(pkt@);
                let rest = self@.aligned_frames(data@, i + TS_PACKET, wall_ns);
                assert(done + (here + rest) =~= done + here + rest);
            }
            i = i + TS_PACKET;
        }
        assert(out@ + Seq::<Frame>::empty() =~= out@);
    }

    /// Emits the PES in progress (call at end of stream).
    pub fn flush(&mut self, out: &mut Vec<Frame>)
        requires
            old(self)@.wf(),
        ensures
            final(self)@.wf(),
            final(self)@ == old(self)@.finished(),
            final(out)@ == old(out)@ + old(self)@.finished_frames(),
    {
        self.finish_pes(out);
    }

    fn packet(&mut self, p: &[u8], wall_ns: i64, out: &mut Vec<Frame>)
        requires
            old(self)@.wf(),
            p@.len() == TS_PACKET,
        ensures
            final(self)@.wf(),
            final(self)@.carry == old(self)@.carry,
            final(self)@ == old(self)@.packet(p@, wall_ns),
            final(out)@ == old(out)@ + old(self)@.packet_frames(p@),
    {
        proof {
            reveal(Ts::packet);
        }
        assert(out@ + Seq::<Frame>::empty() =~= out@);
        self.stats.packets = count(self.stats.packets, 1);
        let flags: u8 = p[1];
        if flags & 0x80 != 0 {
            self.stats.tei = count(self.stats.tei, 1);
            return;
        }
        let pusi = flags & 0x40 != 0;
        let pid: u16 = pid_of(p[1], p[2]);
        let afc: u8 = (p[3] >> 4) & 3;
        let cc: u8 = p[3] & 0x0F;
        let ctrl: u8 = p[3];
        assert(cc <= 15) by (bit_vector)
            requires
                cc == ctrl & 0x0F,
        ;
        if afc == 0 {
            self.stats.bad_af = count(self.stats.bad_af, 1);
            return;
        }
        let mut off: usize = 4;
        let mut discontinuity = false;
        if afc & 2 != 0 {
            let af_len: usize = p[4] as usize;
            let max: usize = if afc == 2 { 183 } else { 182 };
            if af_len > max {
                self.stats.bad_af = count(self.stats.bad_af, 1);
                return;
            }
            if af_len > 0 {
                discontinuity = p[5] & 0x80 != 0;
            }
            off = 5 + af_len;
        }
        assert(payload_start(p@) == Some(off as int));
        let has_payload = afc & 1 != 0;
        let payload = if has_payload {
            slice_subrange(p, off, p.len())
        } else {
            slice_subrange(p, 0, 0)
        };
        assert(payload@ =~= (if has_payload {
            p@.skip(off as int)
        } else {
            seq![]
        }));
        let on_pmt = match self.pmt_pid {
            Some(x) => x == pid,
            None => false,
        };
        let on_video = match self.video_pid {
            Some(x) => x == pid,
            None => false,
        };
        if pid == 0 || on_pmt {
            self.psi(pid, pusi, payload);
        } else if on_video {
            if has_payload {
                if let Some(last) = self.last_cc {
                    let expected: u8 = if last == 15 { 0 } else { last + 1 };
                    if cc != expected && cc != last && !discontinuity {
                        self.stats.cc_errors = count(self.stats.cc_errors, 1);
                    }
                }
                self.last_cc = Some(cc);
            }
            self.video(pusi, payload, wall_ns, out);
        }
    }

    fn psi(&mut self, pid: u16, pusi: bool, payload: &[u8])
        requires
            old(self)@.wf(),
        ensures
            final(self)@.wf(),
            final(self)@.carry == old(self)@.carry,
            final(self)@ == old(self)@.psi(pid, pusi, payload@),
    {
        proof {
            reveal(Ts::psi);
        }
        if payload.len() == 0 {
            return;
        }
        let ghost before = self@;
        let ghost part0 = self@.assembly(pid);
        let taken = self.sections.remove(&pid);
        let mut part = match taken {
            Some(a) => a,
            None => SectionAsm { buf: Vec::new(), active: false },
        };
        assert(part@ =~= part0);
        assert(section_views(self.sections@) =~= before.sections.remove(pid));
        let mut complete: Vec<Vec<u8>> = Vec::new();
        let ghost early: Seq<Seq<u8>> = seq![];
        if pusi {
            let ptr: usize = payload[0] as usize;
            if 1 + ptr > payload.len() {
                self.stats.bad_section = count(self.stats.bad_section, 1);
                let none = SectionAsm { buf: Vec::new(), active: false };
                assert(none@ =~= no_section());
                self.sections.insert(pid, none);
                assert(self@.sections =~= before.sections.insert(pid, no_section()));
                return;
            }
            if part.active {
                part.buf.extend_from_slice(slice_subrange(payload, 1, 1 + ptr));
                assert(part.buf@ =~= part0.buf + payload@.subrange(1, 1 + ptr));
                let ghost joined = part.buf@;
                if let Some(s) = take_section(&mut part.buf) {
                    complete.push(s);
                }
                assert(byte_lists(complete@) =~= front_section(joined));
            } else {
                assert(byte_lists(complete@) =~= seq![]);
            }
            part.buf = slice_to_vec(slice_subrange(payload, 1 + ptr, payload.len()));
            part.active = true;
            assert(part.buf@ =~= payload@.skip(1 + ptr));
        } else {
            assert(byte_lists(complete@) =~= seq![]);
            if !part.active {
                self.sections.insert(pid, part);
                assert(self@.sections =~= before.sections.insert(pid, part0));
                return;
            }
            part.buf.extend_from_slice(payload);
            assert(part.buf@ =~= part0.buf + payload@);
        }
        let ghost head = byte_lists(complete@);
        let ghost whole = part.buf@;
        let ghost want = pulled(whole);
        assert(head + want.0 =~= byte_lists(complete@) + want.0);
        // Pull out every complete section in the buffer.
        loop
            invariant_except_break
                part.active,
                head + want.0 == byte_lists(complete@) + pulled(part.buf@).0,
                want.1 == pulled(part.buf@).1,
            ensures
                head + want.0 == byte_lists(complete@),
                want.1 == part@,
            decreases part.buf@.len(),
        {
            if part.buf.len() == 0 || part.buf[0] == 0xFF {
                part.buf.clear();
                part.active = false;
                assert(part@ =~= no_section());
                assert(byte_lists(complete@) + Seq::<Seq<u8>>::empty() =~= byte_lists(complete@));
                break;
            }
            let ghost buf = part.buf@;
            match take_section(&mut part.buf) {
                Some(s) => {
                    let ghost sofar = byte_lists(complete@);
                    complete.push(s);
                    assert(byte_lists(complete@) =~= sofar.push(s@));
                    assert(sofar.push(s@) + pulled(part.buf@).0 =~= sofar + (seq![s@] + pulled(
                        part.buf@,
                    ).0));
                },
                None => {
                    assert(byte_lists(complete@) + Seq::<Seq<u8>>::empty() =~= byte_lists(
                        complete@,
                    ));
                    break;
                },
            }
        }
        if part.buf.len() > 4096 {
            part.buf.clear();
            part.active = false;
            self.stats.bad_section = count(self.stats.bad_section, 1);
            assert(part@ =~= no_section());
        }
        let ghost kept = part@;
        self.sections.insert(pid, part);
        assert(self@.sections =~= before.sections.insert(pid, kept));
        let ghost list = byte_lists(complete@);
        let ghost target = self@.all_sections(pid, list);
        assert(target == before.psi(pid, pusi, payload@));
        assert(list.skip(0) =~= list);
        let mut k: usize = 0;
        while k < complete.len()
            invariant
                k <= complete.len(),
                list == byte_lists(complete@),
                self@.wf(),
                self@.carry == before.carry,
                target == self@.all_sections(pid, list.skip(k as int)),
            decreases complete.len() - k,
        {
            assert(list.skip(k as int)[0] == complete@[k as int]@);
            assert(list.skip(k as int).drop_first() =~= list.skip(k + 1));
            self.section(pid, complete[k].as_slice());
            k = k + 1;
        }
        assert(list.skip(k as int).len() == 0);
    }

    fn section(&mut self, pid: u16, s: &[u8])
        requires
            old(self)@.wf(),
        ensures
            final(self)@.wf(),
            final(self)@.carry == old(self)@.carry,
            final(self)@ == old(self)@.section(pid, s@),
    {
        proof {
            reveal(Ts::section);
        }
        if s.len() < 12 || crc32_mpeg2(s) != 0 {
            self.stats.crc_errors = count(self.stats.crc_errors, 1);
            return;
        }
        // Skip sections with current_next_indicator == 0.
        if s[5] & 0x01 == 0 {
            return;
        }
        let n: usize = s.len();
        let crc: u32 = s[n - 4] as u32 * 0x100_0000 + s[n - 3] as u32 * 0x1_0000 + s[n - 2] as u32
            * 0x100 + s[n - 1] as u32;
        let body = slice_subrange(s, 8, n - 4);
        let on_pmt = match self.pmt_pid {
            Some(x) => x == pid,
            None => false,
        };
        if pid == 0 && s[0] == 0x00 {
            self.pat(crc, body);
        } else if on_pmt && s[0] == 0x02 {
            self.pmt(crc, body);
        } else {
            self.stats.bad_section = count(self.stats.bad_section, 1);
        }
    }

    fn pat(&mut self, crc: u32, body: &[u8])
        requires
            old(self)@.wf(),
        ensures
            final(self)@.wf(),
            final(self)@.carry == old(self)@.carry,
            final(self)@ == old(self)@.pat(crc, body@),
    {
        proof {
            reveal(Ts::pat);
        }
        if let Some(c) = self.pat_crc {
            if c == crc {
                return;
            }
        }
        self.pat_crc = Some(crc);
        let new_pmt = find_program(body, self.program);
        if !same_pid(new_pmt, self.pmt_pid) {
            if let Some(old_pid) = self.pmt_pid {
                self.stats.pat_changes = count(self.stats.pat_changes, 1);
                let ghost seen = self@.events;
                let event = change_event("PAT change: PMT PID ", self.pmt_pid, new_pmt);
                self.events.push(event);
                assert(self@.events =~= seen.push(event@));
                let ghost map = self@.sections;
                self.sections.remove(&old_pid);
                assert(self@.sections =~= map.remove(old_pid));
            }
            self.pmt_pid = new_pmt;
            self.pmt_crc = None;
        }
    }

    fn pmt(&mut self, crc: u32, body: &[u8])
        requires
            old(self)@.wf(),
        ensures
            final(self)@.wf(),
            final(self)@.carry == old(self)@.carry,
            final(self)@ == old(self)@.pmt(crc, body@),
    {
        proof {
            reveal(Ts::pmt);
        }
        if let Some(c) = self.pmt_crc {
            if c == crc {
                return;
            }
        }
        self.pmt_crc = Some(crc);
        if body.len() < 4 {
            self.stats.bad_section = count(self.stats.bad_section, 1);
            return;
        }
        let found = find_video(body, 4 + length_of(body[2], body[3]));
        let new_pid = match found {
            Some((pid, _)) => Some(pid),
            None => None,
        };
        if !same_pid(new_pid, self.video_pid) {
            if self.video_pid.is_some() {
                self.stats.pmt_changes = count(self.stats.pmt_changes, 1);
                let ghost seen = self@.events;
                let event = change_event("PMT change: video PID ", self.video_pid, new_pid);
                self.events.push(event);
                assert(self@.events =~= seen.push(event@));
            }
            self.pes = None;  // drop a partial PES from the old PID
            self.last_cc = None;
            self.video_pid = new_pid;
        }
        if let Some((_, st)) = found {
            self.video_stream_type = st;
        }
    }

    fn video(&mut self, pusi: bool, payload: &[u8], wall_ns: i64, out: &mut Vec<Frame>)
        requires
            old(self)@.wf(),
        ensures
            final(self)@.wf(),
            final(self)@.carry == old(self)@.carry,
            final(self)@ == old(self)@.video(pusi, payload@, wall_ns),
            final(out)@ == old(out)@ + (if pusi {
                old(self)@.finished_frames()
            } else {
                seq![]
            }),
    {
        if pusi {
            self.finish_pes(out);
            self.pes_start(payload, wall_ns);
        } else {
            assert(out@ + Seq::<Frame>::empty() =~= out@);
            let mut pes: Option<PesState> = None;
            std::mem::swap(&mut pes, &mut self.pes);
            if let Some(mut st) = pes {
                push_tail(&mut st.tail, payload);
                self.pes = Some(st);
            }
        }
    }

    fn pes_start(&mut self, payload: &[u8], wall_ns: i64)
        requires
            old(self)@.wf(),
        ensures
            final(self)@.wf(),
            final(self)@.carry == old(self)@.carry,
            final(self)@ == old(self)@.pes_start(payload@, wall_ns),
    {
        proof {
            reveal(Ts::pes_start);
        }
        // PES header: 00 00 01 sid len(2) flags1 flags2 hdr_len ...
        if payload.len() < 9 || payload[0] != 0 || payload[1] != 0 || payload[2] != 1 {
            self.stats.pes_bad_header = count(self.stats.pes_bad_header, 1);
            return;
        }
        let flags2: u8 = payload[7];
        let hdr_len: usize = payload[8] as usize;
        let mut pts: Option<i64> = None;
        if flags2 & 0x80 != 0 {
            if payload.len() >= 14 {
                let bits = slice_subrange(payload, 9, 14);
                if let Some(raw) = parse_pts(bits) {
                    let (v, wrapped): (i64, bool) = self.unwrap.unwrap(raw);
                    if wrapped {
                        self.stats.pts_wraps = count(self.stats.pts_wraps, 1);
                    }
                    pts = Some(v);
                }
            } else {
                self.stats.pes_bad_header = count(self.stats.pes_bad_header, 1);
            }
        }
        if pts.is_none() {
            self.stats.pes_no_pts = count(self.stats.pes_no_pts, 1);
        }
        self.seq = count(self.seq, 1);
        let mut tail: Vec<u8> = Vec::new();
        if 9 + hdr_len <= payload.len() {
            let es = slice_subrange(payload, 9 + hdr_len, payload.len());
            assert(es@ =~= payload@.skip(9 + hdr_len));
            assert(tail@ + es@ =~= es@);
            push_tail(&mut tail, es);
        }
        self.pes = Some(PesState { wall_ns, pts, seq: self.seq, tail });
        assert(self@ =~= old(self)@.pes_start(payload@, wall_ns));
    }

    fn finish_pes(&mut self, out: &mut Vec<Frame>)
        requires
            old(self)@.wf(),
        ensures
            final(self)@.wf(),
            final(self)@ == old(self)@.finished(),
            final(out)@ == old(out)@ + old(self)@.finished_frames(),
    {
        let mut pes: Option<PesState> = None;
        std::mem::swap(&mut pes, &mut self.pes);
        match pes {
            Some(st) => {
                let mut n: usize = st.tail.len();
                assert(st.tail@.take(n as int) =~= st.tail@);
                while n > 0 && st.tail[n - 1] == 0
                    invariant
                        n <= st.tail@.len(),
                        without_trailing_zeros(st.tail@) == without_trailing_zeros(
                            st.tail@.take(n as int),
                        ),
                    decreases n,
                {
                    assert(st.tail@.take(n as int).drop_last() =~= st.tail@.take(n - 1));
                    n = n - 1;
                }
                let ghost t = st.tail@.take(n as int);
                assert(without_trailing_zeros(t) == t);
                let hash: u64 = if n == 0 {
                    0
                } else if n > TAIL_HASH {
                    let last = slice_subrange(st.tail.as_slice(), n - TAIL_HASH, n);
                    assert(last@ =~= t.skip(t.len() - TAIL_HASH));
                    fnv1a(last)
                } else {
                    let all = slice_subrange(st.tail.as_slice(), 0, n);
                    assert(all@ =~= t);
                    fnv1a(all)
                };
                assert(hash == tail_hash(st.tail@));
                self.stats.frames = count(self.stats.frames, 1);
                let frame = Frame {
                    wall_ns: st.wall_ns,
                    pts: st.pts,
                    seq: st.seq,
                    tail_hash: hash,
                };
                out.push(frame);
                assert(out@ =~= old(out)@ + seq![frame]);
            },
            None => {
                assert(out@ =~= old(out)@ + Seq::<Frame>::empty());
            },
        }
    }
}

impl Default for TsParser {
    fn default() -> (r: Self)
        ensures
            r@.wf(),
            r@ == (Ts {
                stats: no_stats(),
                program: 0,
                pmt_pid: None,
                video_pid: None,
                video_stream_type: 0,
                pat_crc: None,
                pmt_crc: None,
                sections: Map::empty(),
                last_cc: None,
                pes: None,
                unwrap: PtsUnwrap { last_raw: None, base: 0 },
                seq: 0,
                carry: seq![],
                events: seq![],
            }),
    {
        TsParser::new(0)
    }
}

/// The bytes of a list of byte strings.
pub open spec fn byte_lists(list: Seq<Vec<u8>>) -> Seq<Seq<u8>> {
    list.map_values(|v: Vec<u8>| v@)
}

fn same_pid(a: Option<u16>, b: Option<u16>) -> (r: bool)
    ensures
        r == (a == b),
{
    match (a, b) {
        (Some(x), Some(y)) => x == y,
        (None, None) => true,
        _ => false,
    }
}

} // verus!
