//! What the transport stream parser promises of every stream.
use vstd::prelude::*;

use crate::counter::counted;
use crate::ts::{in_sync, resync, Frame, Pes, Stats, Ts, TS_PACKET};

verus! {

/// A sync byte stands at the start of every packet, partial ones included.
pub open spec fn in_step(data: Seq<u8>) -> bool {
    forall|k: int|
        #![trigger data[k * TS_PACKET]]
        0 <= k && k * TS_PACKET < data.len() ==> data[k * TS_PACKET] == 0x47
}

/// Nothing is carried over anew, and no loss of sync is counted.
spec fn steady(after: Ts, before: Ts) -> bool {
    &&& after.carry == before.carry
    &&& after.stats.bad_sync == before.stats.bad_sync
    &&& after.stats.bad_bytes == before.stats.bad_bytes
}

proof fn lemma_section_is_steady(ts: Ts, pid: u16, s: Seq<u8>)
    ensures
        steady(ts.section(pid, s), ts),
{
    reveal(Ts::section);
    reveal(Ts::pat);
    reveal(Ts::pmt);
}

proof fn lemma_all_sections_are_steady(ts: Ts, pid: u16, list: Seq<Seq<u8>>)
    ensures
        steady(ts.all_sections(pid, list), ts),
    decreases list.len(),
{
    if list.len() > 0 {
        lemma_section_is_steady(ts, pid, list[0]);
        lemma_all_sections_are_steady(ts.section(pid, list[0]), pid, list.drop_first());
    }
}

proof fn lemma_psi_is_steady(ts: Ts, pid: u16, pusi: bool, payload: Seq<u8>)
    ensures
        steady(ts.psi(pid, pusi, payload), ts),
{
    reveal(Ts::psi);
    assert forall|t: Ts, list: Seq<Seq<u8>>| steady(#[trigger] t.all_sections(pid, list), t) by {
        lemma_all_sections_are_steady(t, pid, list);
    }
}

proof fn lemma_packet_is_steady(ts: Ts, p: Seq<u8>, wall_ns: i64)
    ensures
        steady(ts.packet(p, wall_ns), ts),
{
    reveal(Ts::packet);
    reveal(Ts::pes_start);
    assert forall|t: Ts, pid: u16, pusi: bool, payload: Seq<u8>|
        steady(#[trigger] t.psi(pid, pusi, payload), t) by {
        lemma_psi_is_steady(t, pid, pusi, payload);
    }
}

/// Reading `data` from `i` on is reading what stands from `i` on.
proof fn lemma_shift(ts: Ts, data: Seq<u8>, i: int, j: int, wall_ns: i64)
    requires
        0 <= i <= data.len(),
        0 <= j,
    ensures
        ts.aligned(data, i + j, wall_ns) == ts.aligned(data.skip(i), j, wall_ns),
        ts.aligned_frames(data, i + j, wall_ns) == ts.aligned_frames(data.skip(i), j, wall_ns),
    decreases data.len() - i - j,
{
    let rest = data.skip(i);
    if i + j < data.len() {
        assert(data[i + j] == rest[j]);
        if data[i + j] != 0x47 {
            lemma_resync_shift(data, i, j + 1);
            lemma_resync_bounds(rest, j + 1);
            let to = resync(rest, j + 1);
            let next = Ts {
                stats: Stats {
                    bad_sync: counted(ts.stats.bad_sync, 1),
                    bad_bytes: counted(ts.stats.bad_bytes, (to - j) as nat),
                    ..ts.stats
                },
                ..ts
            };
            lemma_shift(next, data, i, to, wall_ns);
        } else if i + j + TS_PACKET > data.len() {
            assert(data.skip(i + j) =~= rest.skip(j));
        } else {
            let p = data.subrange(i + j, i + j + TS_PACKET);
            assert(p =~= rest.subrange(j, j + TS_PACKET));
            lemma_shift(ts.packet(p, wall_ns), data, i, j + TS_PACKET, wall_ns);
        }
    }
}

proof fn lemma_resync_bounds(data: Seq<u8>, i: int)
    requires
        0 <= i <= data.len(),
    ensures
        i <= resync(data, i) <= data.len(),
    decreases data.len() - i,
{
    if i < data.len() && !in_sync(data, i) {
        lemma_resync_bounds(data, i + 1);
    }
}

proof fn lemma_resync_shift(data: Seq<u8>, i: int, j: int)
    requires
        0 <= i <= data.len(),
        0 <= j,
        i + j <= data.len(),
    ensures
        resync(data, i + j) == i + resync(data.skip(i), j),
    decreases data.len() - i - j,
{
    let rest = data.skip(i);
    if i + j < data.len() {
        assert(in_sync(data, i + j) == in_sync(rest, j));
        if !in_sync(data, i + j) {
            lemma_resync_shift(data, i, j + 1);
        }
    }
}

/// The chunks of an in-step stream, from packet `k` on.
proof fn lemma_chunks(ts: Ts, a: Seq<u8>, b: Seq<u8>, k: int, wall_ns: i64)
    requires
        in_step(a + b),
        0 <= k,
        k * TS_PACKET <= a.len(),
        ts.carry.len() == 0,
    ensures
        ({
            let i = k * TS_PACKET;
            let first = ts.aligned(a, i, wall_ns);
            let emptied = Ts { carry: seq![], ..first };
            &&& emptied.aligned(first.carry + b, 0, wall_ns) == ts.aligned(a + b, i, wall_ns)
            &&& ts.aligned_frames(a, i, wall_ns) + emptied.aligned_frames(
                first.carry + b,
                0,
                wall_ns,
            ) == ts.aligned_frames(a + b, i, wall_ns)
        }),
    decreases a.len() - k * TS_PACKET,
{
    let i = k * TS_PACKET;
    let whole = a + b;
    let first = ts.aligned(a, i, wall_ns);
    let emptied = Ts { carry: seq![], ..first };
    if i < a.len() {
        assert(whole[k * TS_PACKET] == 0x47);
        assert(a[i] == 0x47);
    }
    if i + TS_PACKET > a.len() || i >= a.len() {
        if i >= a.len() {
            assert(first == ts);
            assert(first.carry =~= a.skip(i));
        } else {
            assert(first == (Ts { carry: a.skip(i), ..ts }));
        }
        assert(emptied =~= ts);
        assert(first.carry + b =~= whole.skip(i));
        lemma_shift(ts, whole, i, 0, wall_ns);
        assert(ts.aligned_frames(a, i, wall_ns) =~= seq![]);
        assert(Seq::<Frame>::empty() + ts.aligned_frames(whole.skip(i), 0, wall_ns)
            =~= ts.aligned_frames(whole.skip(i), 0, wall_ns));
    } else {
        let p = a.subrange(i, i + TS_PACKET);
        assert(p =~= whole.subrange(i, i + TS_PACKET));
        let next = ts.packet(p, wall_ns);
        lemma_packet_is_steady(ts, p, wall_ns);
        assert((k + 1) * TS_PACKET == i + TS_PACKET) by (nonlinear_arith)
            requires
                i == k * TS_PACKET,
        ;
        lemma_chunks(next, a, b, k + 1, wall_ns);
        let f = ts.packet_frames(p);
        let g = next.aligned_frames(a, i + TS_PACKET, wall_ns);
        let h = emptied.aligned_frames(first.carry + b, 0, wall_ns);
        assert(f + g + h =~= f + (g + h));
    }
}

/// How a stream is cut into datagrams does not matter: fed in two pieces it ends
/// in the same state and yields the same frames as fed in one, if the stream is
/// in step (out of step, where a datagram ends decides what counts as in sync).
pub proof fn law_datagram_borders_do_not_matter(ts: Ts, a: Seq<u8>, b: Seq<u8>, wall_ns: i64)
    requires
        in_step(ts.carry + a + b),
    ensures
        ts.fed(a, wall_ns).fed(b, wall_ns) == ts.fed(a + b, wall_ns),
        ts.fed_frames(a, wall_ns) + ts.fed(a, wall_ns).fed_frames(b, wall_ns) == ts.fed_frames(
            a + b,
            wall_ns,
        ),
{
    assert(ts.carry + (a + b) =~= ts.carry + a + b);
    let empty = Ts { carry: seq![], ..ts };
    lemma_chunks(empty, ts.carry + a, b, 0, wall_ns);
}

/// The state with the arrival time of the PES in progress left out.
pub open spec fn timeless(ts: Ts) -> Ts {
    Ts {
        pes: match ts.pes {
            Some(pes) => Some(Pes { wall_ns: 0, ..pes }),
            None => None,
        },
        ..ts
    }
}

/// Frames with their arrival times left out.
pub open spec fn timeless_frames(frames: Seq<Frame>) -> Seq<Frame> {
    Seq::new(frames.len(), |i: int| Frame { wall_ns: 0, ..frames[i] })
}

/// A datagram and when it came.
pub struct Piece {
    pub data: Seq<u8>,
    pub wall_ns: i64,
}

/// The bytes of all pieces, one after the other.
pub open spec fn pieces_data(pieces: Seq<Piece>) -> Seq<u8>
    decreases pieces.len(),
{
    if pieces.len() == 0 {
        seq![]
    } else {
        pieces_data(pieces.drop_last()) + pieces.last().data
    }
}

/// The state once all pieces were fed.
pub open spec fn fed_all(ts: Ts, pieces: Seq<Piece>) -> Ts
    decreases pieces.len(),
{
    if pieces.len() == 0 {
        ts
    } else {
        fed_all(ts, pieces.drop_last()).fed(pieces.last().data, pieces.last().wall_ns)
    }
}

/// The frames that the pieces complete.
pub open spec fn fed_all_frames(ts: Ts, pieces: Seq<Piece>) -> Seq<Frame>
    decreases pieces.len(),
{
    if pieces.len() == 0 {
        seq![]
    } else {
        fed_all_frames(ts, pieces.drop_last()) + fed_all(ts, pieces.drop_last()).fed_frames(
            pieces.last().data,
            pieces.last().wall_ns,
        )
    }
}

proof fn lemma_timeless_section(ts: Ts, pid: u16, s: Seq<u8>)
    ensures
        timeless(ts.section(pid, s)) == timeless(ts).section(pid, s),
{
    reveal(Ts::section);
    reveal(Ts::pat);
    reveal(Ts::pmt);
}

proof fn lemma_timeless_sections(ts: Ts, pid: u16, list: Seq<Seq<u8>>)
    ensures
        timeless(ts.all_sections(pid, list)) == timeless(ts).all_sections(pid, list),
    decreases list.len(),
{
    if list.len() > 0 {
        lemma_timeless_section(ts, pid, list[0]);
        lemma_timeless_sections(ts.section(pid, list[0]), pid, list.drop_first());
    }
}

proof fn lemma_timeless_psi(ts: Ts, pid: u16, pusi: bool, payload: Seq<u8>)
    ensures
        timeless(ts.psi(pid, pusi, payload)) == timeless(ts).psi(pid, pusi, payload),
{
    reveal(Ts::psi);
    assert forall|t: Ts, list: Seq<Seq<u8>>| #[trigger]
        timeless(t.all_sections(pid, list)) == timeless(t).all_sections(pid, list) by {
        lemma_timeless_sections(t, pid, list);
    }
}

proof fn lemma_timeless_packet(ts: Ts, p: Seq<u8>, wall_ns: i64)
    ensures
        timeless(ts.packet(p, wall_ns)) == timeless(ts).packet(p, 0),
        timeless_frames(ts.packet_frames(p)) == timeless(ts).packet_frames(p),
{
    reveal(Ts::packet);
    reveal(Ts::pes_start);
    assert forall|t: Ts, pid: u16, pusi: bool, payload: Seq<u8>| #[trigger]
        timeless(t.psi(pid, pusi, payload)) == timeless(t).psi(pid, pusi, payload) by {
        lemma_timeless_psi(t, pid, pusi, payload);
    }
    assert(timeless_frames(ts.packet_frames(p)) =~= timeless(ts).packet_frames(p));
}

/// The arrival time shows in nothing but the arrival times.
proof fn lemma_timeless_aligned(ts: Ts, data: Seq<u8>, i: int, wall_ns: i64)
    ensures
        timeless(ts.aligned(data, i, wall_ns)) == timeless(ts).aligned(data, i, 0),
        timeless_frames(ts.aligned_frames(data, i, wall_ns)) == timeless(ts).aligned_frames(
            data,
            i,
            0,
        ),
    decreases data.len() - i,
{
    if i >= data.len() {
        assert(timeless_frames(seq![]) =~= seq![]);
    } else if data[i] != 0x47 {
        let j = resync(data, i + 1);
        if j <= i || j > data.len() {
            assert(timeless_frames(seq![]) =~= seq![]);
        } else {
            let next = Ts {
                stats: Stats {
                    bad_sync: counted(ts.stats.bad_sync, 1),
                    bad_bytes: counted(ts.stats.bad_bytes, (j - i) as nat),
                    ..ts.stats
                },
                ..ts
            };
            lemma_timeless_aligned(next, data, j, wall_ns);
        }
    } else if i + TS_PACKET > data.len() {
        assert(timeless_frames(seq![]) =~= seq![]);
    } else {
        let p = data.subrange(i, i + TS_PACKET);
        lemma_timeless_packet(ts, p, wall_ns);
        let next = ts.packet(p, wall_ns);
        lemma_timeless_aligned(next, data, i + TS_PACKET, wall_ns);
        let f = ts.packet_frames(p);
        let g = next.aligned_frames(data, i + TS_PACKET, wall_ns);
        assert(timeless_frames(f + g) =~= timeless_frames(f) + timeless_frames(g));
    }
}

proof fn lemma_timeless_fed(ts: Ts, data: Seq<u8>, wall_ns: i64)
    ensures
        timeless(ts.fed(data, wall_ns)) == timeless(ts).fed(data, 0),
        timeless_frames(ts.fed_frames(data, wall_ns)) == timeless(ts).fed_frames(data, 0),
{
    lemma_timeless_aligned(Ts { carry: seq![], ..ts }, ts.carry + data, 0, wall_ns);
}

/// A stream in step never loses sync, from packet `k` on.
proof fn lemma_in_step_is_steady(ts: Ts, data: Seq<u8>, k: int, wall_ns: i64)
    requires
        in_step(data),
        0 <= k,
    ensures
        ({
            let after = ts.aligned(data, k * TS_PACKET, wall_ns);
            &&& after.stats.bad_sync == ts.stats.bad_sync
            &&& after.stats.bad_bytes == ts.stats.bad_bytes
        }),
    decreases data.len() - k * TS_PACKET,
{
    let i = k * TS_PACKET;
    if i + TS_PACKET <= data.len() {
        assert(data[k * TS_PACKET] == 0x47);
        let p = data.subrange(i, i + TS_PACKET);
        lemma_packet_is_steady(ts, p, wall_ns);
        assert((k + 1) * TS_PACKET == i + TS_PACKET) by (nonlinear_arith)
            requires
                i == k * TS_PACKET,
        ;
        lemma_in_step_is_steady(ts.packet(p, wall_ns), data, k + 1, wall_ns);
    } else if i < data.len() {
        assert(data[k * TS_PACKET] == 0x47);
    }
}

proof fn lemma_pieces(ts: Ts, pieces: Seq<Piece>)
    requires
        pieces.len() > 0 || ts.carry.len() == 0,
        in_step(ts.carry + pieces_data(pieces)),
    ensures
        timeless(fed_all(ts, pieces)) == timeless(ts).fed(pieces_data(pieces), 0),
        timeless_frames(fed_all_frames(ts, pieces)) == timeless(ts).fed_frames(
            pieces_data(pieces),
            0,
        ),
    decreases pieces.len(),
{
    if pieces.len() == 0 {
        assert(ts.carry =~= seq![]);
        assert(timeless_frames(seq![]) =~= seq![]);
    } else {
        let head = pieces.drop_last();
        let last = pieces.last();
        let before = fed_all(ts, head);
        lemma_timeless_fed(before, last.data, last.wall_ns);
        let f = fed_all_frames(ts, head);
        let g = before.fed_frames(last.data, last.wall_ns);
        assert(timeless_frames(f + g) =~= timeless_frames(f) + timeless_frames(g));
        if head.len() == 0 {
            assert(pieces_data(head) =~= seq![]);
            assert(pieces_data(pieces) =~= last.data);
            assert(before == ts);
            assert(timeless_frames(f) + timeless_frames(g) =~= timeless_frames(g));
        } else {
            let part = ts.carry + pieces_data(head);
            let whole = ts.carry + pieces_data(pieces);
            assert(whole =~= part + last.data);
            assert forall|k: int|
                #![trigger part[k * TS_PACKET]]
                0 <= k && k * TS_PACKET < part.len() implies part[k * TS_PACKET] == 0x47 by {
                assert(whole[k * TS_PACKET] == 0x47);
            }
            lemma_pieces(ts, head);
            law_datagram_borders_do_not_matter(timeless(ts), pieces_data(head), last.data, 0);
        }
    }
}

/// However a stream in step is cut into datagrams and whenever they come, the
/// parser counts the same, finds the same program and yields the same frames as
/// from one datagram with all the bytes; only arrival times differ. Sync is never
/// lost on the way.
pub proof fn law_pieces_do_not_matter(ts: Ts, pieces: Seq<Piece>, wall_ns: i64)
    requires
        pieces.len() > 0 || ts.carry.len() == 0,
        in_step(ts.carry + pieces_data(pieces)),
    ensures
        ({
            let cut = fed_all(ts, pieces);
            let one = ts.fed(pieces_data(pieces), wall_ns);
            &&& timeless(cut) == timeless(one)
            &&& cut.stats == one.stats
            &&& cut.video_pid == one.video_pid
            &&& cut.events == one.events
            &&& timeless_frames(fed_all_frames(ts, pieces)) == timeless_frames(
                ts.fed_frames(pieces_data(pieces), wall_ns),
            )
            &&& timeless_frames(cut.finished_frames()) == timeless_frames(one.finished_frames())
            &&& cut.stats.bad_sync == ts.stats.bad_sync
            &&& cut.stats.bad_bytes == ts.stats.bad_bytes
        }),
{
    let data = pieces_data(pieces);
    lemma_pieces(ts, pieces);
    lemma_timeless_fed(ts, data, wall_ns);
    lemma_in_step_is_steady(Ts { carry: seq![], ..ts }, ts.carry + data, 0, wall_ns);
    let cut = fed_all(ts, pieces);
    let one = ts.fed(data, wall_ns);
    assert(timeless(cut).stats == cut.stats && timeless(one).stats == one.stats);
    assert(timeless(cut).video_pid == cut.video_pid && timeless(one).video_pid == one.video_pid);
    assert(timeless(cut).events == cut.events && timeless(one).events == one.events);
    assert(timeless(cut).pes == timeless(one).pes);
    assert(timeless_frames(cut.finished_frames()) =~= timeless(cut).finished_frames());
    assert(timeless_frames(one.finished_frames()) =~= timeless(one).finished_frames());
}

} // verus!
