//! What the transport stream parser reads out of each field of a packet, a table
//! and a PES header.
use vstd::prelude::*;

use crate::annexb::without_trailing_zeros;
use crate::counter::counted;
use crate::ts::{
    crc32, first_video, fnv, front_section, kept_tail, no_section, payload_start, program_pid,
    pts_bits, pulled, resync, tail_hash, Stats, Ts,
};

verus! {

/// The 33 bits of a timestamp in five bytes, each with a marker bit where the
/// standard puts one.
pub open spec fn timestamp(b: Seq<u8>, at: int) -> int {
    (b[at] as int / 2 % 8) * 0x4000_0000 + b[at + 1] as int * 0x40_0000 + (b[at + 2] as int / 2)
        * 0x8000 + b[at + 3] as int * 0x80 + b[at + 4] as int / 2
}

proof fn lemma_timestamp(b: Seq<u8>)
    requires
        b.len() >= 14,
    ensures
        pts_bits(b.subrange(9, 14)) == timestamp(b, 9),
        0 <= timestamp(b, 9) < 0x2_0000_0000,
{
    let x = b[9];
    let y = b[11];
    let z = b[13];
    assert((x >> 1) & 7 == x / 2 % 8 && y >> 1 == y / 2 && z >> 1 == z / 2) by (bit_vector);
}

/// A header that does not start with 00 00 01, or is shorter than nine bytes, is
/// counted and starts nothing. Any other one starts a PES, numbered in turn, at
/// the time its packet came. Where its PTS bit is set, with or without the DTS
/// bit, and the header holds five more bytes, the frame has a timestamp: the 33
/// bits there, plus a whole number of wraps. Otherwise it has none, which is
/// counted. The payload starts behind the header's own length.
pub proof fn law_pes_headers_are_read(ts: Ts, payload: Seq<u8>, wall_ns: i64)
    ensures
        ({
            let after = ts.pes_start(payload, wall_ns);
            let good = payload.len() >= 9 && payload[0] == 0 && payload[1] == 0 && payload[2] == 1;
            let timed = payload[7] as int / 128 == 1 && payload.len() >= 14;
            let start = 9 + payload[8] as int;
            &&& !good ==> after == (Ts {
                stats: Stats { pes_bad_header: counted(ts.stats.pes_bad_header, 1), ..ts.stats },
                ..ts
            })
            &&& good ==> {
                &&& after.pes matches Some(pes) && {
                    &&& pes.wall_ns == wall_ns
                    &&& pes.seq == counted(ts.seq, 1)
                    &&& pes.pts is Some == timed
                    &&& timed ==> pes.pts == Some(
                        ts.unwrap.value(timestamp(payload, 9) as i64),
                    )
                    &&& timed && ts.unwrap.base % 0x2_0000_0000 == 0 ==> (pes.pts->0 - timestamp(
                        payload,
                        9,
                    )) % 0x2_0000_0000 == 0
                    &&& start <= payload.len() ==> pes.tail == kept_tail(payload.skip(start))
                    &&& start > payload.len() ==> pes.tail.len() == 0
                }
                &&& after.seq == counted(ts.seq, 1)
                &&& timed ==> after.stats.pes_no_pts == ts.stats.pes_no_pts
                    && after.stats.pes_bad_header == ts.stats.pes_bad_header
                &&& !timed ==> after.stats.pes_no_pts == counted(ts.stats.pes_no_pts, 1)
                    && after.unwrap == ts.unwrap
                &&& timed ==> after.unwrap == ts.unwrap.after(timestamp(payload, 9) as i64)
                &&& after.video_pid == ts.video_pid && after.pmt_pid == ts.pmt_pid
                    && after.last_cc == ts.last_cc && after.sections == ts.sections
            }
        }),
{
    reveal(Ts::pes_start);
    if payload.len() >= 9 {
        let x = payload[7];
        assert((x & 0x80 != 0) == (x / 128 == 1)) by (bit_vector);
        if payload.len() >= 14 {
            lemma_timestamp(payload);
            let raw = timestamp(payload, 9) as i64;
            if ts.unwrap.base % 0x2_0000_0000 == 0 {
                crate::ts::law_unwrapped_is_congruent(ts.unwrap, raw);
            }
        }
    }
}

/// The wall time, timestamp, number and content of the PES in progress make the
/// frame, which is counted; without one there is none.
pub proof fn law_a_finished_pes_is_a_frame(ts: Ts)
    ensures
        ts.pes is None ==> ts.finished_frames().len() == 0 && ts.finished() == ts,
        ts.pes matches Some(pes) ==> {
            let frames = ts.finished_frames();
            &&& frames.len() == 1
            &&& frames[0].wall_ns == pes.wall_ns
            &&& frames[0].pts == pes.pts
            &&& frames[0].seq == pes.seq
            &&& frames[0].tail_hash == tail_hash(pes.tail)
            &&& ts.finished().pes is None
            &&& ts.finished().stats.frames == counted(ts.stats.frames, 1)
            &&& ts.finished().seq == ts.seq && ts.finished().unwrap == ts.unwrap
                && ts.finished().video_pid == ts.video_pid && ts.finished().carry == ts.carry
        },
{
}

/// What a packet of a wanted PID hands on: its number, the counter and start bits,
/// and its payload.
pub open spec fn packet_pid(p: Seq<u8>) -> int {
    p[1] as int % 32 * 256 + p[2]
}

/// Where the payload of a packet starts, by its control bits: 1 for a payload at
/// once, 2 for an adaptation field alone, 3 for both.
pub open spec fn packet_payload(p: Seq<u8>) -> Option<Seq<u8>> {
    let control = p[3] as int / 16 % 4;
    if control == 1 {
        Some(p.skip(4))
    } else if control == 2 && p[4] <= 183 {
        Some(seq![])
    } else if control == 3 && p[4] <= 182 {
        Some(p.skip(5 + p[4]))
    } else {
        None
    }
}

proof fn lemma_packet_fields(p: Seq<u8>)
    requires
        p.len() == 188,
    ensures
        crate::ts::pid_bits(p[1], p[2]) == packet_pid(p),
        (p[1] & 0x80 != 0) == (p[1] as int / 128 == 1),
        (p[1] & 0x40 != 0) == (p[1] as int / 64 % 2 == 1),
        (p[3] >> 4) & 3 == p[3] as int / 16 % 4,
        p[3] & 0x0F == p[3] as int % 16,
        (p[5] & 0x80 != 0) == (p[5] as int / 128 == 1),
        (((p[3] >> 4) & 3) & 1 != 0) == (p[3] as int / 16 % 2 == 1),
        (((p[3] >> 4) & 3) & 2 != 0) == (p[3] as int / 32 % 2 == 1),
{
    let a = p[1];
    let c = p[3];
    let d = p[5];
    assert(a & 0x1F == a % 32 && (a & 0x80 != 0) == (a / 128 == 1) && (a & 0x40 != 0) == (a / 64 % 2
        == 1) && (c >> 4) & 3 == c / 16 % 4 && c & 0x0F == c % 16 && (d & 0x80 != 0) == (d / 128
        == 1) && (((c >> 4) & 3) & 1 != 0) == (c / 16 % 2 == 1) && (((c >> 4) & 3) & 2 != 0) == (c
        / 32 % 2 == 1)) by (bit_vector);
}

proof fn lemma_pes_needs_little(a: Ts, b: Ts, payload: Seq<u8>, wall_ns: i64)
    requires
        a.seq == b.seq,
        a.unwrap == b.unwrap,
        a.pes == b.pes,
    ensures
        a.pes_start(payload, wall_ns).pes == b.pes_start(payload, wall_ns).pes,
{
    reveal(Ts::pes_start);
}

/// Every packet is counted. One with the error bit, or without a sensible field
/// layout, is counted as such and read no further. A packet of PID 0 or of the
/// program's table goes to the tables, one of the video PID to the PES; another
/// one changes nothing. A frame comes out only with a video packet that starts a
/// PES.
#[verifier::rlimit(40)]
pub proof fn law_packets_go_by_their_pid(ts: Ts, p: Seq<u8>, wall_ns: i64)
    requires
        p.len() == 188,
    ensures
        ({
            let after = ts.packet(p, wall_ns);
            let seen = Ts {
                stats: Stats { packets: counted(ts.stats.packets, 1), ..ts.stats },
                ..ts
            };
            let pid = packet_pid(p);
            let starts = p[1] as int / 64 % 2 == 1;
            let table = pid == 0 || ts.pmt_pid == Some(pid as u16);
            let video = !table && ts.video_pid == Some(pid as u16);
            &&& p[1] as int / 128 == 1 ==> {
                &&& after == (Ts {
                    stats: Stats { tei: counted(ts.stats.tei, 1), ..seen.stats },
                    ..seen
                })
                &&& ts.packet_frames(p).len() == 0
            }
            &&& p[1] as int / 128 == 0 && packet_payload(p) is None ==> {
                &&& after == (Ts {
                    stats: Stats { bad_af: counted(ts.stats.bad_af, 1), ..seen.stats },
                    ..seen
                })
                &&& ts.packet_frames(p).len() == 0
            }
            &&& p[1] as int / 128 == 0 && packet_payload(p) is Some ==> {
                let payload = packet_payload(p)->0;
                &&& table ==> after == seen.psi(pid as u16, starts, payload)
                    && ts.packet_frames(p).len() == 0
                &&& !table && !video ==> after == seen && ts.packet_frames(p).len() == 0
                &&& video ==> ts.packet_frames(p) == (if starts {
                    ts.finished_frames()
                } else {
                    seq![]
                })
                &&& video && starts ==> after.pes == seen.finished().pes_start(
                    payload,
                    wall_ns,
                ).pes
                &&& video && !starts && ts.pes is None ==> after.pes is None
                &&& video && !starts ==> (ts.pes matches Some(pes) ==> after.pes matches Some(now)
                    && now.wall_ns == pes.wall_ns && now.pts == pes.pts && now.seq == pes.seq
                    && now.tail == kept_tail(pes.tail + payload))
            }
        }),
{
    reveal(Ts::packet);
    lemma_packet_fields(p);
    assert forall|a: Ts, payload: Seq<u8>| #[trigger] a.pes_start(payload, wall_ns).pes == Ts {
        seq: a.seq,
        unwrap: a.unwrap,
        pes: a.pes,
        ..ts
    }.pes_start(payload, wall_ns).pes by {
        lemma_pes_needs_little(
            a,
            Ts { seq: a.seq, unwrap: a.unwrap, pes: a.pes, ..ts },
            payload,
            wall_ns,
        );
    }
    let control = p[3] as int / 16 % 4;
    assert(p[3] as int / 16 % 2 == control % 2);
    assert(p[3] as int / 32 % 2 == control / 2);
    if control == 2 && p[4] <= 183 {
        assert(payload_start(p) == Some(5 + p[4]));
    }
}

/// A video packet with a payload breaks the count where its counter is neither
/// the one after the last, modulo 16, nor the last one again, and its adaptation
/// field announces no discontinuity. The counter is remembered; a packet without
/// a payload is not looked at.
pub proof fn law_continuity_is_checked(ts: Ts, p: Seq<u8>, wall_ns: i64)
    requires
        p.len() == 188,
        ts.wf(),
        p[1] as int / 128 == 0,
        packet_payload(p) is Some,
        packet_pid(p) != 0,
        ts.pmt_pid != Some(packet_pid(p) as u16),
        ts.video_pid == Some(packet_pid(p) as u16),
    ensures
        ({
            let after = ts.packet(p, wall_ns);
            let cc = p[3] as int % 16;
            let carries = p[3] as int / 16 % 2 == 1;
            let announced = p[3] as int / 32 % 2 == 1 && p[4] > 0 && p[5] as int / 128 == 1;
            &&& !carries ==> after.last_cc == ts.last_cc && after.stats.cc_errors
                == ts.stats.cc_errors
            &&& carries ==> after.last_cc == Some(cc as u8)
            &&& carries && ts.last_cc is None ==> after.stats.cc_errors == ts.stats.cc_errors
            &&& carries ==> (ts.last_cc matches Some(last) ==> {
                let fine = cc == (last + 1) % 16 || cc == last || announced;
                &&& fine ==> after.stats.cc_errors == ts.stats.cc_errors
                &&& !fine ==> after.stats.cc_errors == counted(ts.stats.cc_errors, 1)
            })
        }),
{
    reveal(Ts::packet);
    reveal(Ts::pes_start);
    lemma_packet_fields(p);
}

/// The program's number in the entry at `i`.
pub open spec fn entry_number(body: Seq<u8>, i: int) -> int {
    body[i] as int * 256 + body[i + 1] as int
}

/// Entry `k` of four bytes names the program asked for: its own number, or any
/// but zero if none is asked for.
pub open spec fn entry_is_wanted(body: Seq<u8>, k: int, program: u16) -> bool {
    entry_number(body, 4 * k) != 0 && (program == 0 || entry_number(body, 4 * k) == program)
}

proof fn lemma_program_pid(body: Seq<u8>, from: int, k: int, program: u16)
    requires
        0 <= from <= k,
        forall|j: int| from <= j < k ==> !#[trigger] entry_is_wanted(body, j, program),
        4 * k + 4 <= body.len() ==> entry_is_wanted(body, k, program),
    ensures
        program_pid(body, 4 * from, program) == (if 4 * k + 4 <= body.len() {
            Some(((body[4 * k + 2] as int % 32) * 256 + body[4 * k + 3]) as u16)
        } else {
            None
        }),
    decreases k - from,
{
    let at = 4 * from;
    if from < k {
        if at + 4 <= body.len() {
            assert(!entry_is_wanted(body, from, program));
            lemma_program_pid(body, from + 1, k, program);
        }
    } else if at + 4 <= body.len() {
        let x = body[4 * k + 2];
        assert(x & 0x1F == x % 32) by (bit_vector);
    }
}

/// The program association table names the PID of the first entry that is wanted,
/// whatever stands before it; with no such entry there is none.
pub proof fn law_the_first_wanted_program_is_followed(body: Seq<u8>, k: int, program: u16)
    requires
        0 <= k,
        forall|j: int| 0 <= j < k ==> !#[trigger] entry_is_wanted(body, j, program),
        4 * k + 4 <= body.len() ==> entry_is_wanted(body, k, program),
    ensures
        program_pid(body, 0, program) == (if 4 * k + 4 <= body.len() {
            Some(((body[4 * k + 2] as int % 32) * 256 + body[4 * k + 3]) as u16)
        } else {
            None
        }),
{
    lemma_program_pid(body, 0, k, program);
}

/// A stream of one of the video types: MPEG-1 and MPEG-2, MPEG-4 part 2, H.264,
/// HEVC, VVC, AVS2 and AVS3.
pub open spec fn is_video_stream(t: u8) -> bool {
    t == 1 || t == 2 || t == 16 || t == 27 || t == 36 || t == 51 || t == 210 || t == 212
}

/// An entry of the program map table: type, PID and descriptors.
pub struct Entry {
    pub kind: u8,
    pub pid_hi: u8,
    pub pid_lo: u8,
    pub len_hi: u8,
    pub len_lo: u8,
    pub descriptors: Seq<u8>,
}

impl Entry {
    /// The descriptors are as long as the entry says.
    pub open spec fn sound(self) -> bool {
        self.descriptors.len() == self.len_hi as int % 16 * 256 + self.len_lo
    }

    pub open spec fn bytes(self) -> Seq<u8> {
        seq![self.kind, self.pid_hi, self.pid_lo, self.len_hi, self.len_lo] + self.descriptors
    }
}

/// Entries one behind the other.
pub open spec fn entry_bytes(list: Seq<Entry>) -> Seq<u8>
    decreases list.len(),
{
    if list.len() == 0 {
        seq![]
    } else {
        list[0].bytes() + entry_bytes(list.drop_first())
    }
}

/// The PID and type of the first video stream among entries.
pub open spec fn first_video_entry(list: Seq<Entry>) -> Option<(u16, u8)>
    decreases list.len(),
{
    if list.len() == 0 {
        None
    } else if is_video_stream(list[0].kind) {
        Some(((list[0].pid_hi as int % 32 * 256 + list[0].pid_lo) as u16, list[0].kind))
    } else {
        first_video_entry(list.drop_first())
    }
}

/// The program map table names the first video stream among its entries, whatever
/// descriptors stand between them.
pub proof fn law_the_first_video_stream_is_followed(front: Seq<u8>, list: Seq<Entry>)
    requires
        forall|k: int| 0 <= k < list.len() ==> (#[trigger] list[k]).sound(),
    ensures
        first_video(front + entry_bytes(list), front.len() as int) == first_video_entry(list),
    decreases list.len(),
{
    let body = front + entry_bytes(list);
    let i = front.len() as int;
    if list.len() > 0 {
        let e = list[0];
        let rest = list.drop_first();
        assert(e.sound());
        assert forall|k: int| 0 <= k < rest.len() implies (#[trigger] rest[k]).sound() by {
            assert(rest[k] == list[k + 1]);
        }
        let x = e.pid_hi;
        let y = e.len_hi;
        assert(x & 0x1F == x % 32 && y & 0x0F == y % 16) by (bit_vector);
        let longer = front + e.bytes();
        assert(body =~= longer + entry_bytes(rest));
        assert(e.bytes().len() == 5 + e.descriptors.len());
        assert(body[i] == e.kind && body[i + 1] == e.pid_hi && body[i + 2] == e.pid_lo && body[i
            + 3] == e.len_hi && body[i + 4] == e.len_lo);
        law_the_first_video_stream_is_followed(longer, rest);
    }
}

/// A section whose length field says how long it is: three bytes and as many as
/// its twelve bits count.
pub open spec fn whole_section(s: Seq<u8>) -> bool {
    s.len() >= 3 && s[0] != 0xFF && s.len() == 3 + s[1] as int % 16 * 256 + s[2]
}

/// Sections one behind the other.
pub open spec fn sections_together(list: Seq<Seq<u8>>) -> Seq<u8>
    decreases list.len(),
{
    if list.len() == 0 {
        seq![]
    } else {
        list[0] + sections_together(list.drop_first())
    }
}

/// All sections in a buffer are found, in order and whole, behind whatever follows
/// them: stuffing, the beginning of another section, which is kept, or nothing.
pub proof fn law_sections_are_pulled_apart(list: Seq<Seq<u8>>, rest: Seq<u8>)
    requires
        forall|k: int| 0 <= k < list.len() ==> whole_section(#[trigger] list[k]),
        rest.len() == 0 || rest[0] == 0xFF || rest.len() < 3 || rest.len() < 3 + rest[1] as int % 16
            * 256 + rest[2],
    ensures
        pulled(sections_together(list) + rest).0 == list,
        rest.len() == 0 || rest[0] == 0xFF ==> !pulled(sections_together(list) + rest).1.active
            && pulled(sections_together(list) + rest).1.buf.len() == 0,
        rest.len() > 0 && rest[0] != 0xFF ==> pulled(sections_together(list) + rest).1.active
            && pulled(sections_together(list) + rest).1.buf == rest,
    decreases list.len(),
{
    let buf = sections_together(list) + rest;
    if list.len() == 0 {
        assert(buf =~= rest);
        if rest.len() >= 3 {
            let x = rest[1];
            assert(x & 0x0F == x % 16) by (bit_vector);
        }
        assert(pulled(buf).0 =~= list);
    } else {
        let s = list[0];
        let more = list.drop_first();
        assert(whole_section(s));
        assert forall|k: int| 0 <= k < more.len() implies whole_section(#[trigger] more[k]) by {
            assert(more[k] == list[k + 1]);
        }
        let x = s[1];
        assert(x & 0x0F == x % 16) by (bit_vector);
        assert(buf[0] == s[0] && buf[1] == s[1] && buf[2] == s[2]);
        let n = s.len() as int;
        assert(buf.take(n) =~= s);
        assert(buf.skip(n) =~= sections_together(more) + rest);
        law_sections_are_pulled_apart(more, rest);
        assert(seq![s] + more =~= list);
    }
}

/// A section counts only if it has twelve bytes and its CRC comes out as zero, and
/// only if it is in force now. One of PID 0 with table number 0 names the program's
/// table, one of that table's PID with number 2 the video stream; any other is an
/// error. The same table again changes nothing.
pub proof fn law_sections_are_checked(ts: Ts, pid: u16, s: Seq<u8>)
    ensures
        ({
            let after = ts.section(pid, s);
            let n = s.len() as int;
            let good = n >= 12 && crc32(s) == 0;
            let now = s[5] as int % 2 == 1;
            &&& !good ==> after == (Ts {
                stats: Stats { crc_errors: counted(ts.stats.crc_errors, 1), ..ts.stats },
                ..ts
            })
            &&& good && !now ==> after == ts
            &&& good && now && pid == 0 && s[0] == 0 ==> {
                let crc = s[n - 4] * 0x100_0000 + s[n - 3] * 0x1_0000 + s[n - 2] * 0x100 + s[n - 1];
                let known = ts.pat_crc == Some(crc as u32);
                &&& known ==> after == ts
                &&& !known ==> {
                    &&& after.pmt_pid == program_pid(s.subrange(8, n - 4), 0, ts.program)
                    &&& after.pat_crc == Some(crc as u32)
                    &&& after.pmt_pid != ts.pmt_pid ==> after.pmt_crc is None
                    &&& after.pmt_pid == ts.pmt_pid ==> after.pmt_crc == ts.pmt_crc
                        && after.stats == ts.stats && after.events == ts.events
                    &&& after.pmt_pid != ts.pmt_pid && ts.pmt_pid is Some
                        ==> after.stats.pat_changes == counted(ts.stats.pat_changes, 1)
                        && after.events.len() == ts.events.len() + 1
                    &&& ts.pmt_pid is None ==> after.stats.pat_changes == ts.stats.pat_changes
                        && after.events == ts.events
                }
                &&& after.video_pid == ts.video_pid && after.pes == ts.pes
            }
            &&& good && now && (pid != 0 || s[0] != 0) && !(ts.pmt_pid == Some(pid) && s[0] == 2)
                ==> after == (Ts {
                stats: Stats { bad_section: counted(ts.stats.bad_section, 1), ..ts.stats },
                ..ts
            })
            &&& good && now && pid != 0 && ts.pmt_pid == Some(pid) && s[0] == 2 && n >= 16 ==> {
                let crc = s[n - 4] * 0x100_0000 + s[n - 3] * 0x1_0000 + s[n - 2] * 0x100 + s[n - 1];
                let body = s.subrange(8, n - 4);
                let found = first_video(body, 4 + (s[10] as int % 16 * 256 + s[11]));
                let known = ts.pmt_crc == Some(crc as u32);
                &&& known ==> after == ts
                &&& !known ==> {
                    &&& after.pmt_crc == Some(crc as u32)
                    &&& found is None ==> after.video_pid is None && after.video_stream_type
                        == ts.video_stream_type
                    &&& found matches Some((to, kind)) ==> after.video_pid == Some(to)
                        && after.video_stream_type == kind
                    &&& after.video_pid == ts.video_pid ==> after.pes == ts.pes && after.last_cc
                        == ts.last_cc && after.stats == ts.stats && after.events == ts.events
                    &&& after.video_pid != ts.video_pid ==> after.pes is None
                        && after.last_cc is None
                    &&& after.video_pid != ts.video_pid && ts.video_pid is Some
                        ==> after.stats.pmt_changes == counted(ts.stats.pmt_changes, 1)
                        && after.events.len() == ts.events.len() + 1
                    &&& ts.video_pid is None ==> after.stats.pmt_changes == ts.stats.pmt_changes
                }
                &&& after.pmt_pid == ts.pmt_pid
            }
        }),
{
    reveal(Ts::section);
    reveal(Ts::pat);
    reveal(Ts::pmt);
    if s.len() >= 12 {
        let x = s[5];
        let y = s[10];
        assert((x & 1 == 0) == (x % 2 == 0) && y & 0x0F == y % 16) by (bit_vector);
        let n = s.len() as int;
        if n >= 16 {
            assert(s.subrange(8, n - 4)[2] == s[10]);
            assert(s.subrange(8, n - 4)[3] == s[11]);
        }
    }
}

/// The content hash looks at no trailing zeros, at no more than the last 128 bytes
/// before them, and is zero for a blank tail.
pub proof fn law_content_is_told_by_its_tail(front: Seq<u8>, tail: Seq<u8>, zeros: Seq<u8>)
    requires
        tail.len() > 0,
        tail[tail.len() - 1] != 0,
        forall|k: int| 0 <= k < zeros.len() ==> #[trigger] zeros[k] == 0,
    ensures
        tail_hash(tail + zeros) == tail_hash(tail),
        tail_hash(zeros) == 0,
        tail.len() >= 128 ==> tail_hash(front + tail) == tail_hash(tail),
        tail.len() <= 128 ==> tail_hash(tail) == fnv(tail),
{
    lemma_zeros_drop(tail, zeros);
    lemma_zeros_drop_all(zeros);
    assert(without_trailing_zeros(tail) == tail);
    assert(without_trailing_zeros(front + tail) == front + tail);
    if tail.len() >= 128 {
        let all = front + tail;
        assert(all.skip(all.len() - 128) =~= tail.skip(tail.len() - 128));
        assert(tail.len() == 128 ==> tail.skip(0) =~= tail);
    }
}

proof fn lemma_zeros_drop(tail: Seq<u8>, zeros: Seq<u8>)
    requires
        tail.len() > 0,
        tail[tail.len() - 1] != 0,
        forall|k: int| 0 <= k < zeros.len() ==> #[trigger] zeros[k] == 0,
    ensures
        without_trailing_zeros(tail + zeros) == tail,
    decreases zeros.len(),
{
    if zeros.len() == 0 {
        assert(tail + zeros =~= tail);
    } else {
        let less = zeros.drop_last();
        assert(zeros[zeros.len() - 1] == 0);
        assert forall|k: int| 0 <= k < less.len() implies #[trigger] less[k] == 0 by {
            assert(less[k] == zeros[k]);
        }
        lemma_zeros_drop(tail, less);
        assert((tail + zeros).drop_last() =~= tail + less);
    }
}

proof fn lemma_zeros_drop_all(zeros: Seq<u8>)
    requires
        forall|k: int| 0 <= k < zeros.len() ==> #[trigger] zeros[k] == 0,
    ensures
        without_trailing_zeros(zeros).len() == 0,
    decreases zeros.len(),
{
    if zeros.len() > 0 {
        let less = zeros.drop_last();
        assert(zeros[zeros.len() - 1] == 0);
        assert forall|k: int| 0 <= k < less.len() implies #[trigger] less[k] == 0 by {
            assert(less[k] == zeros[k]);
        }
        lemma_zeros_drop_all(less);
    }
}

/// Of a tail that grows beyond 512 bytes the last 256 are kept; of a shorter one
/// all.
pub proof fn law_tails_keep_their_end(tail: Seq<u8>)
    ensures
        tail.len() <= 512 ==> kept_tail(tail) == tail,
        tail.len() > 512 ==> kept_tail(tail).len() == 256 && kept_tail(tail) == tail.skip(
            tail.len() - 256,
        ),
{
}

/// The hash of content is the 64-bit FNV-1a hash.
pub proof fn law_content_hash_is_fnv(data: Seq<u8>, b: u8)
    ensures
        fnv(seq![]) == 0xcbf2_9ce4_8422_2325,
        fnv(data.push(b)) == ((fnv(data) ^ (b as u64)) as int * 0x0100_0000_01b3
            % 0x1_0000_0000_0000_0000) as u64,
{
    assert(data.push(b).drop_last() =~= data);
    let h = fnv(data) ^ (b as u64);
    assert(h.wrapping_mul(0x0100_0000_01b3) == h as int * 0x0100_0000_01b3
        % 0x1_0000_0000_0000_0000);
}

/// Out of sync, reading goes on at the first byte 0x47 that another one follows
/// 188 bytes later, or that is in the last packet of the data; there is none
/// before it.
pub proof fn law_sync_is_found_again(data: Seq<u8>, i: int)
    requires
        0 <= i <= data.len(),
    ensures
        ({
            let at = resync(data, i);
            &&& i <= at <= data.len()
            &&& at < data.len() ==> data[at] == 0x47 && (at + 188 < data.len() ==> data[at + 188]
                == 0x47)
            &&& forall|k: int|
                i <= k < at && (#[trigger] data[k]) == 0x47 ==> k + 188 < data.len() && data[k + 188]
                    != 0x47
        }),
    decreases data.len() - i,
{
    if i < data.len() && !crate::ts::in_sync(data, i) {
        law_sync_is_found_again(data, i + 1);
    }
}

/// The beginning of a section that is not complete yet.
pub open spec fn begun_section(a: Seq<u8>) -> bool {
    &&& 0 < a.len() <= 4096
    &&& a[0] != 0xFF
    &&& a.len() < 3 || a.len() < 3 + a[1] as int % 16 * 256 + a[2]
}

/// Where a table is cut into packets does not matter: as long as its section is
/// not complete, the next packet's payload joins on.
pub proof fn law_sections_cross_packets(ts: Ts, pid: u16, a: Seq<u8>, b: Seq<u8>)
    requires
        !ts.assembly(pid).active,
        begun_section(a),
        b.len() > 0,
    ensures
        ts.psi(pid, true, seq![0u8] + a).psi(pid, false, b) == ts.psi(
            pid,
            true,
            seq![0u8] + a + b,
        ),
{
    reveal(Ts::psi);
    law_sections_are_pulled_apart(seq![], a);
    assert(sections_together(seq![]) + a =~= a);
    let first = seq![0u8] + a;
    assert(first.skip(1) =~= a);
    assert(Seq::<Seq<u8>>::empty() + Seq::<Seq<u8>>::empty() =~= Seq::<Seq<u8>>::empty());
    let one = ts.psi(pid, true, first);
    let part = pulled(a).1;
    assert(one == (Ts { sections: ts.sections.insert(pid, part), ..ts }));
    assert(one.assembly(pid) == part);
    let both = seq![0u8] + a + b;
    assert(both.skip(1) =~= a + b);
    let out = pulled(a + b);
    assert(Seq::<Seq<u8>>::empty() + out.0 =~= out.0);
    assert(one.sections.insert(pid, out.1) =~= ts.sections.insert(pid, out.1));
    assert(one.sections.insert(pid, no_section()) =~= ts.sections.insert(pid, no_section()));
}

/// The same holds in the middle of a section.
pub proof fn law_sections_go_on(ts: Ts, pid: u16, a: Seq<u8>, b: Seq<u8>)
    requires
        ts.assembly(pid).active,
        a.len() > 0,
        b.len() > 0,
        begun_section(ts.assembly(pid).buf + a),
    ensures
        ts.psi(pid, false, a).psi(pid, false, b) == ts.psi(pid, false, a + b),
{
    reveal(Ts::psi);
    let old = ts.assembly(pid).buf;
    let mid = old + a;
    law_sections_are_pulled_apart(seq![], mid);
    assert(sections_together(seq![]) + mid =~= mid);
    assert(Seq::<Seq<u8>>::empty() + Seq::<Seq<u8>>::empty() =~= Seq::<Seq<u8>>::empty());
    let one = ts.psi(pid, false, a);
    let part = pulled(mid).1;
    assert(one == (Ts { sections: ts.sections.insert(pid, part), ..ts }));
    assert(one.assembly(pid) == part);
    assert(mid + b =~= old + (a + b));
    let out = pulled(mid + b);
    assert(one.sections.insert(pid, out.1) =~= ts.sections.insert(pid, out.1));
    assert(one.sections.insert(pid, no_section()) =~= ts.sections.insert(pid, no_section()));
}

/// A pointer leads over the end of an older section: that section is completed,
/// and the sections behind the pointer are read after it. Without an older
/// section the bytes before the pointer's place do not matter.
pub proof fn law_pointers_lead_to_sections(
    ts: Ts,
    pid: u16,
    end: Seq<u8>,
    list: Seq<Seq<u8>>,
    filler: Seq<u8>,
)
    requires
        end.len() < 256,
        filler.len() > 0 ==> filler[0] == 0xFF,
        forall|k: int| 0 <= k < list.len() ==> whole_section(#[trigger] list[k]),
        ts.assembly(pid).active ==> whole_section(ts.assembly(pid).buf + end),
    ensures
        ({
            let payload = seq![end.len() as u8] + end + sections_together(list) + filler;
            let read = if ts.assembly(pid).active {
                seq![ts.assembly(pid).buf + end] + list
            } else {
                list
            };
            ts.psi(pid, true, payload) == (Ts {
                sections: ts.sections.insert(pid, no_section()),
                ..ts
            }).all_sections(pid, read)
        }),
{
    reveal(Ts::psi);
    let body = sections_together(list) + filler;
    let payload = seq![end.len() as u8] + end + sections_together(list) + filler;
    let n = end.len() as int;
    law_sections_are_pulled_apart(list, filler);
    assert(payload[0] == end.len());
    assert(payload.skip(1 + n) =~= body);
    assert(payload.subrange(1, 1 + n) =~= end);
    let part = ts.assembly(pid);
    assert(pulled(body).1 == no_section()) by {
        assert(pulled(body).1.buf =~= no_section().buf);
    }
    if part.active {
        let s = part.buf + end;
        let x = s[1];
        assert(x & 0x0F == x % 16) by (bit_vector);
        assert(s.take(s.len() as int) =~= s);
        assert(front_section(s) =~= seq![s]);
    } else {
        assert(Seq::<Seq<u8>>::empty() + list =~= list);
    }
}

/// Sections are taken one after the other, and a payload that goes on from
/// nothing is passed over.
pub proof fn law_sections_are_taken_in_turn(
    ts: Ts,
    pid: u16,
    a: Seq<Seq<u8>>,
    b: Seq<Seq<u8>>,
    s: Seq<u8>,
    payload: Seq<u8>,
)
    ensures
        ts.all_sections(pid, a + b) == ts.all_sections(pid, a).all_sections(pid, b),
        ts.all_sections(pid, seq![s]) == ts.section(pid, s),
        !ts.assembly(pid).active && ts.assembly(pid).buf.len() == 0 ==> {
            let after = ts.psi(pid, false, payload);
            &&& after == (Ts { sections: after.sections, ..ts })
            &&& after.assembly(pid) == ts.assembly(pid)
        },
{
    reveal(Ts::psi);
    lemma_all_sections_add(ts, pid, a, b);
    assert(seq![s].drop_first() =~= seq![]);
    let one = ts.section(pid, s);
    assert(one.all_sections(pid, seq![s].drop_first()) == one);
}

proof fn lemma_all_sections_add(ts: Ts, pid: u16, a: Seq<Seq<u8>>, b: Seq<Seq<u8>>)
    ensures
        ts.all_sections(pid, a + b) == ts.all_sections(pid, a).all_sections(pid, b),
    decreases a.len(),
{
    if a.len() == 0 {
        assert(a + b =~= b);
    } else {
        lemma_all_sections_add(ts.section(pid, a[0]), pid, a.drop_first(), b);
        assert((a + b).drop_first() =~= a.drop_first() + b);
    }
}

} // verus!
