//! What a receiver gets of a run of frames: caption pairs field by field, and
//! the DTVCC packets taken apart into the bytes of each service.
use vstd::prelude::*;

use crate::cc::{CcType, Channel};
use crate::cea608::Encoder608;
use crate::cea708::{law_blocks_never_split_units, taken, Encoder708, UnitBytes};
use crate::mux::{channel_index, closed_packet, packed, placed, packet_limit, packet_triples, turn};
use crate::mux::{FrameRate, Mux, Parts};

verus! {

/// The rates at which the two fields share the frames.
pub open spec fn shares_frames(rate: FrameRate) -> bool {
    rate == FrameRate::Fps50 || rate == FrameRate::Fps59_94 || rate == FrameRate::Fps60
}

/// The pairs that wait on a channel.
pub open spec fn waiting(m: Mux, i: int) -> nat {
    match m.cc608[i] {
        Some(e) => e.queue.len(),
        None => 0,
    }
}

/// The channel has sent the pair at the head of its queue, and nothing else
/// about it has changed.
pub open spec fn sent_head(before: Option<Encoder608>, after: Option<Encoder608>, t: Parts) -> bool {
    &&& before is Some && after is Some
    &&& before->0.queue.len() > 0
    &&& t.2 == before->0.queue[0].hi && t.3 == before->0.queue[0].lo
    &&& after->0.queue == before->0.queue.drop_first()
    &&& after->0 == (Encoder608 { queue: after->0.queue, ..before->0 })
}

/// A field carries the waiting pairs of its two channels, oldest first: in a
/// frame that serves the field exactly one of the channels that have something
/// to send sends its head, and the other channel keeps everything. With nothing
/// to send the field carries the null pair. At 50 frames a second and more field
/// 1 is served on even frames and field 2 on odd ones, and a field that is not
/// served keeps everything.
pub proof fn law_fields_carry_the_waiting_pairs(m: Mux, f: int)
    requires
        m.wf(),
        f == 0 || f == 1,
    ensures
        ({
            let t = m.frame_triples()[f];
            let after = m.frame_done();
            let a = 2 * f;
            let b = 2 * f + 1;
            let served = shares_frames(m.rate) ==> m.frame % 2 == f;
            &&& t.0 == served
            &&& t.1 == (if f == 0 {
                CcType::Field1
            } else {
                CcType::Field2
            })
            &&& !served || waiting(m, a) + waiting(m, b) == 0 ==> {
                &&& t.2 == 0x80 && t.3 == 0x80
                &&& after.cc608[a] == m.cc608[a] && after.cc608[b] == m.cc608[b]
            }
            &&& served && waiting(m, a) + waiting(m, b) > 0 ==> {
                ||| sent_head(m.cc608[a], after.cc608[a], t) && after.cc608[b] == m.cc608[b]
                ||| sent_head(m.cc608[b], after.cc608[b], t) && after.cc608[a] == m.cc608[a]
            }
        }),
{
    let one = m.field_done(0);
    let two = one.field_done(1);
    assert(m.frame_done().cc608 == two.cc608);
    assert(m.frame_triples()[0] == m.field_triple(0));
    assert(m.frame_triples()[1] == one.field_triple(1));
    assert(m.owner[0] == 0 || m.owner[0] == 1);
    assert(m.owner[1] == 2 || m.owner[1] == 3);
    assert(one.owner[1] == m.owner[1]);
    assert(one.rate == m.rate && one.frame == m.frame);
    assert(one.cc608[2] == m.cc608[2] && one.cc608[3] == m.cc608[3]);
    assert(two.cc608[0] == one.cc608[0] && two.cc608[1] == one.cc608[1]);
}

/// Two channels that both have something to send take turns a line at a time:
/// in the middle of its line the channel that sent last goes on, and when its
/// next pair starts a line the field goes to the other channel.
pub proof fn law_channels_take_turns(m: Mux, f: int)
    requires
        m.wf(),
        f == 0 || f == 1,
        shares_frames(m.rate) ==> m.frame % 2 == f,
        waiting(m, 2 * f) > 0,
        waiting(m, 2 * f + 1) > 0,
    ensures
        ({
            let last = m.owner[f];
            let next = m.frame_done().owner[f];
            let t = m.frame_triples()[f];
            &&& next == last <==> !m.cc608[last]->0.queue[0].boundary
            &&& next == 2 * f || next == 2 * f + 1
            &&& sent_head(m.cc608[next], m.frame_done().cc608[next], t)
        }),
{
    law_fields_carry_the_waiting_pairs(m, f);
    let one = m.field_done(0);
    let two = one.field_done(1);
    assert(m.frame_done().cc608 == two.cc608);
    assert(m.frame_done().owner == two.owner);
    assert(m.frame_triples()[0] == m.field_triple(0));
    assert(m.frame_triples()[1] == one.field_triple(1));
    assert(m.owner[0] == 0 || m.owner[0] == 1);
    assert(m.owner[1] == 2 || m.owner[1] == 3);
    assert(one.owner[1] == m.owner[1]);
    assert(one.rate == m.rate && one.frame == m.frame);
    assert(one.cc608[2] == m.cc608[2] && one.cc608[3] == m.cc608[3]);
    assert(two.cc608[0] == one.cc608[0] && two.cc608[1] == one.cc608[1]);
}

/// The bytes of the DTVCC packet among a frame's triples.
pub open spec fn packet_bytes(triples: Seq<Parts>) -> Seq<u8>
    decreases triples.len(),
{
    if triples.len() == 0 {
        seq![]
    } else {
        let t = triples.last();
        let head = packet_bytes(triples.drop_last());
        if t.0 && (t.1 == CcType::DtvccStart || t.1 == CcType::DtvccData) {
            head + seq![t.2, t.3]
        } else {
            head
        }
    }
}

/// What a receiver takes for one service out of service blocks. A block starts
/// with the service number in three bits and the length in five; a zero byte
/// ends the packet.
pub open spec fn heard_by(blocks: Seq<u8>, service: int) -> Seq<u8>
    decreases blocks.len(),
{
    if blocks.len() == 0 || blocks[0] == 0 || 1 + blocks[0] % 32 > blocks.len() {
        seq![]
    } else {
        let end = 1 + blocks[0] % 32;
        (if blocks[0] / 32 == service {
            blocks.subrange(1, end)
        } else {
            seq![]
        }) + heard_by(blocks.skip(end), service)
    }
}

/// What a receiver takes for one service out of a frame.
pub open spec fn heard_in(triples: Seq<Parts>, service: int) -> Seq<u8> {
    let packet = packet_bytes(triples);
    if packet.len() == 0 {
        seq![]
    } else {
        heard_by(packet.skip(1), service)
    }
}

/// The bytes of the units that a service block can hold, in order.
pub open spec fn sendable(queue: Seq<UnitBytes>) -> Seq<u8>
    decreases queue.len(),
{
    if queue.len() == 0 {
        seq![]
    } else if queue[0].bytes.len() > 31 {
        sendable(queue.drop_first())
    } else {
        queue[0].bytes + sendable(queue.drop_first())
    }
}

proof fn lemma_taken_is_sendable(queue: Seq<UnitBytes>, room: int)
    requires
        room >= 0,
    ensures
        taken(queue, room).block + sendable(queue.skip(taken(queue, room).units)) == sendable(
            queue,
        ),
    decreases queue.len(),
{
    law_blocks_never_split_units(queue, room);
    if queue.len() == 0 {
        assert(queue.skip(0) =~= queue);
    } else {
        let unit = queue[0].bytes;
        let rest = queue.drop_first();
        if unit.len() > 31 {
            lemma_taken_is_sendable(rest, room);
            law_blocks_never_split_units(rest, room);
            let n = taken(rest, room).units;
            assert(queue.skip(n + 1) =~= rest.skip(n));
        } else if unit.len() > room {
            assert(queue.skip(0) =~= queue);
            assert(taken(queue, room).block + sendable(queue) =~= sendable(queue));
        } else {
            lemma_taken_is_sendable(rest, room - unit.len());
            law_blocks_never_split_units(rest, room - unit.len());
            let n = taken(rest, room - unit.len()).units;
            let block = taken(rest, room - unit.len()).block;
            assert(queue.skip(n + 1) =~= rest.skip(n));
            assert((unit + block) + sendable(rest.skip(n)) =~= unit + (block + sendable(
                rest.skip(n),
            )));
        }
    }
}

/// Services that have numbers of their own, from 1 to 6.
spec fn numbered(services: Seq<Encoder708>) -> bool {
    &&& forall|i: int|
        0 <= i < services.len() ==> 1 <= (#[trigger] services[i]).service <= 6
    &&& forall|i: int, j: int|
        #![trigger services[i], services[j]]
        0 <= i < services.len() && 0 <= j < services.len() && i != j ==> services[i].service
            != services[j].service
}

/// A packet grows by whole blocks that a receiver takes apart again.
proof fn lemma_packed_is_heard(
    services: Seq<Encoder708>,
    first: int,
    k: int,
    packet: Seq<u8>,
    max: int,
    j: int,
    service: int,
    end: Seq<u8>,
)
    requires
        numbered(services),
        0 <= j < services.len(),
        packet.len() <= max,
        end.len() == 0 || end == seq![0u8],
    ensures
        ({
            let (after, done) = packed(services, first, k, packet, max);
            let more = done.skip(packet.len() as int);
            &&& packet.len() <= done.len() <= max
            &&& done.take(packet.len() as int) == packet
            &&& after.len() == services.len()
            &&& after[j].service == services[j].service
            &&& heard_by(more + end, services[j].service as int) + sendable(after[j].queue)
                == sendable(services[j].queue)
            &&& (forall|i: int|
                0 <= i < services.len() ==> (#[trigger] services[i]).service != service)
                ==> heard_by(more + end, service) == Seq::<u8>::empty()
            &&& exists|n: int|
                0 <= n <= services[j].queue.len() && after[j].queue
                    == #[trigger] services[j].queue.skip(n)
        }),
    decreases services.len() - k,
{
    let left = max - packet.len() - 1;
    let room = if left > 31 { 31 } else { left };
    let i = turn(first, k, services.len() as int);
    let number = services[j].service as int;
    let (after, done) = packed(services, first, k, packet, max);
    if k >= services.len() || room <= 0 || !(0 <= i < services.len()) {
        assert(done.take(packet.len() as int) =~= packet);
        assert(done.skip(packet.len() as int) + end =~= end);
        assert(heard_by(end, number) =~= seq![]);
        assert(heard_by(end, number) + sendable(services[j].queue) =~= sendable(
            services[j].queue,
        ));
        assert(services[j].queue.skip(0) =~= services[j].queue);
    } else {
        let block = taken(services[i].queue, room).block;
        let units = taken(services[i].queue, room).units;
        let next = services.update(i, services[i].after_block(room));
        law_blocks_never_split_units(services[i].queue, room);
        lemma_taken_is_sendable(services[i].queue, room);
        assert forall|x: int| 0 <= x < next.len() implies 1 <= (#[trigger] next[x]).service
            <= 6 by {
            assert(next[x].service == services[x].service);
        }
        assert forall|x: int, y: int|
            #![trigger next[x], next[y]]
            0 <= x < next.len() && 0 <= y < next.len() && x != y implies next[x].service
            != next[y].service by {
            assert(services[x].service != services[y].service);
        }
        let head = if block.len() == 0 {
            packet
        } else {
            packet + seq![(services[i].service * 32 + block.len()) as u8] + block
        };
        lemma_packed_is_heard(next, first, k + 1, head, max, j, service, end);
        let more = done.skip(packet.len() as int);
        let rest = done.skip(head.len() as int);
        assert(next[j].service == services[j].service);
        if forall|x: int|
            0 <= x < services.len() ==> (#[trigger] services[x]).service != service {
            assert forall|x: int| 0 <= x < next.len() implies (#[trigger] next[x]).service
                != service by {
                assert(services[x].service != service);
            }
        }
        assert(done.take(packet.len() as int) =~= packet) by {
            assert(head.take(packet.len() as int) =~= packet);
            assert(done.take(head.len() as int).take(packet.len() as int) =~= done.take(
                packet.len() as int,
            ));
        }
        let n = choose|n: int|
            0 <= n <= next[j].queue.len() && after[j].queue == #[trigger] next[j].queue.skip(n);
        if j == i {
            assert(next[j].queue =~= services[j].queue.skip(units));
            assert(services[j].queue.skip(units).skip(n) =~= services[j].queue.skip(units + n));
            assert(after[j].queue == services[j].queue.skip(units + n));
        } else {
            assert(next[j] == services[j]);
            assert(after[j].queue == services[j].queue.skip(n));
        }
        if block.len() == 0 {
            assert(more =~= rest);
            if j == i {
                assert(block + sendable(next[j].queue) =~= sendable(next[j].queue));
            }
        } else {
            let header = (services[i].service * 32 + block.len()) as u8;
            let all = more + end;
            assert(1 <= services[i].service <= 6);
            assert(header == services[i].service * 32 + block.len());
            assert(header / 32 == services[i].service && header % 32 == block.len());
            assert(head =~= done.take(head.len() as int));
            assert(all.len() >= 1 + block.len());
            assert(all[0] == head[packet.len() as int]);
            assert(all[0] == header);
            assert(all.subrange(1, block.len() + 1int) =~= block) by {
                assert forall|x: int| 0 <= x < block.len() implies all[1 + x] == block[x] by {
                    assert(all[1 + x] == done[packet.len() + 1 + x]);
                    assert(head[packet.len() + 1 + x] == block[x]);
                    assert(done.take(head.len() as int)[packet.len() + 1 + x] == block[x]);
                }
            }
            assert(all.skip(block.len() + 1int) =~= rest + end);
            let tail = heard_by(rest + end, number);
            if j == i {
                assert(heard_by(all, number) == block + tail);
                assert((block + tail) + sendable(after[j].queue) =~= block + (tail + sendable(
                    after[j].queue,
                )));
            } else {
                assert(services[j].service != services[i].service);
                assert(heard_by(all, number) =~= tail);
            }
            if forall|x: int|
                0 <= x < services.len() ==> (#[trigger] services[x]).service != service {
                assert(services[i].service != service);
                assert(heard_by(all, service) =~= heard_by(rest + end, service));
            }
        }
    }
}

/// The triples of a packet give the packet back.
proof fn lemma_packet_bytes(packet: Seq<u8>, n: int)
    requires
        packet.len() % 2 == 0,
        0 <= n <= packet.len() / 2,
    ensures
        packet_bytes(packet_triples(packet).take(n)) == packet.take(2 * n),
    decreases n,
{
    let all = packet_triples(packet);
    if n == 0 {
        assert(all.take(0) =~= seq![]);
        assert(packet.take(0) =~= seq![]);
    } else {
        lemma_packet_bytes(packet, n - 1);
        assert(all.take(n).drop_last() =~= all.take(n - 1));
        assert(all.take(n).last() == all[n - 1]);
        assert(packet.take(2 * (n - 1)) + seq![packet[2 * (n - 1)], packet[2 * (n - 1) + 1]]
            =~= packet.take(2 * n));
    }
}

/// Triples that belong to no packet add nothing to it.
proof fn lemma_others_add_nothing(a: Seq<Parts>, b: Seq<Parts>)
    requires
        forall|k: int| 0 <= k < b.len() ==> !(#[trigger] b[k]).0,
    ensures
        packet_bytes(a + b) == packet_bytes(a),
    decreases b.len(),
{
    if b.len() == 0 {
        assert(a + b =~= a);
    } else {
        let less = b.drop_last();
        assert forall|k: int| 0 <= k < less.len() implies !(#[trigger] less[k]).0 by {
            assert(less[k] == b[k]);
        }
        lemma_others_add_nothing(a, less);
        assert((a + b).drop_last() =~= a + less);
        assert(!b[b.len() - 1].0);
    }
}

proof fn lemma_bytes_behind_fields(x: Parts, y: Parts, b: Seq<Parts>)
    requires
        x.1 == CcType::Field1,
        y.1 == CcType::Field2,
    ensures
        packet_bytes(seq![x, y] + b) == packet_bytes(b),
    decreases b.len(),
{
    if b.len() == 0 {
        let s = seq![x, y];
        assert(s + b =~= s);
        assert(s.drop_last() =~= seq![x]);
        assert(seq![x].drop_last() =~= seq![]);
        assert(packet_bytes(seq![x].drop_last()) =~= seq![]);
        assert(packet_bytes(seq![x]) =~= seq![]);
    } else {
        lemma_bytes_behind_fields(x, y, b.drop_last());
        assert((seq![x, y] + b).drop_last() =~= seq![x, y] + b.drop_last());
    }
}

proof fn lemma_frame_packet(m: Mux)
    requires
        m.wf(),
    ensures
        ({
            let slots = m.rate.triples() - 2;
            let packet = packed(
                m.cc708,
                m.next_service,
                0,
                seq![0u8],
                packet_limit(slots),
            ).1;
            &&& m.frame_done().cc708 == packed(
                m.cc708,
                m.next_service,
                0,
                seq![0u8],
                packet_limit(slots),
            ).0
            &&& packet.len() > 1 ==> packet_bytes(m.frame_triples()) == closed_packet(
                packet,
                m.sequence,
            )
            &&& packet.len() <= 1 ==> packet_bytes(m.frame_triples()) == Seq::<u8>::empty()
        }),
{
    let one = m.field_done(0);
    let two = one.field_done(1);
    let slots = m.rate.triples() - 2;
    let x = m.field_triple(0);
    let y = one.field_triple(1);
    let t = two.dtvcc_triples(slots);
    let n = m.rate.triples();
    assert(two.cc708 == m.cc708 && two.next_service == m.next_service && two.sequence
        == m.sequence);
    let filler = Seq::new(
        (n - (seq![x, y] + t).len()) as nat,
        |k: int| (false, CcType::DtvccData, 0u8, 0u8),
    );
    assert(m.frame_triples() =~= (seq![x, y] + t) + filler);
    lemma_others_add_nothing(seq![x, y] + t, filler);
    lemma_bytes_behind_fields(x, y, t);
    let packet = packed(m.cc708, m.next_service, 0, seq![0u8], packet_limit(slots)).1;
    if packet.len() > 1 {
        let whole = closed_packet(packet, m.sequence);
        lemma_packet_bytes(whole, (whole.len() / 2) as int);
        assert(packet_triples(whole).take((whole.len() / 2) as int) =~= packet_triples(whole));
        assert(whole.take(whole.len() as int) =~= whole);
    }
}

/// Nothing is lost or mixed up between the services: what a receiver takes for a
/// service out of a frame, followed by what still waits, is what waited before
/// the frame. What waits afterwards is the rest of the queue, unit by unit, and a
/// service that is not there is not heard.
pub proof fn law_services_are_heard(m: Mux, j: int, service: int)
    requires
        m.wf(),
        0 <= j < m.cc708.len(),
    ensures
        ({
            let after = m.frame_done().cc708;
            &&& after.len() == m.cc708.len()
            &&& after[j].service == m.cc708[j].service
            &&& heard_in(m.frame_triples(), m.cc708[j].service as int) + sendable(after[j].queue)
                == sendable(m.cc708[j].queue)
            &&& exists|n: int|
                0 <= n <= m.cc708[j].queue.len() && after[j].queue
                    == #[trigger] m.cc708[j].queue.skip(n)
            &&& (forall|i: int|
                0 <= i < m.cc708.len() ==> (#[trigger] m.cc708[i]).service != service)
                ==> heard_in(m.frame_triples(), service) == Seq::<u8>::empty()
        }),
{
    lemma_frame_packet(m);
    let services = m.cc708;
    assert forall|i: int| 0 <= i < services.len() implies 1 <= (#[trigger] services[i]).service
        <= 6 by {
        assert(services[i].wf());
    }
    let max = packet_limit(m.rate.triples() - 2);
    let (after, packet) = packed(services, m.next_service, 0, seq![0u8], max);
    let end: Seq<u8> = if packet.len() % 2 == 1 {
        seq![0u8]
    } else {
        seq![]
    };
    lemma_packed_is_heard(services, m.next_service, 0, seq![0u8], max, j, service, end);
    let whole = packet_bytes(m.frame_triples());
    if packet.len() > 1 {
        assert(whole.skip(1) =~= packet.skip(1) + end);
    } else {
        assert(packet.skip(1) =~= seq![]);
        assert(packet.skip(1) + end =~= end);
    }
}

/// The service whose turn it is goes first: the first unit that waits there
/// reaches the receiver with this frame, in front of everything else that is
/// heard of the service. The turn passes on by one with every frame.
pub proof fn law_services_take_turns(m: Mux)
    requires
        m.wf(),
        m.cc708.len() > 0,
        m.cc708[m.next_service].queue.len() > 0,
        1 <= m.cc708[m.next_service].queue[0].bytes.len() <= 14,
    ensures
        ({
            let mine = m.cc708[m.next_service];
            let unit = mine.queue[0].bytes;
            let packet = packet_bytes(m.frame_triples());
            &&& packet.len() >= 2 + unit.len()
            &&& packet[1] / 32 == mine.service
            &&& packet[1] % 32 >= unit.len()
            &&& packet.subrange(2, unit.len() + 2int) == unit
            &&& m.next_service + 1 < m.cc708.len() ==> m.frame_done().next_service
                == m.next_service + 1
            &&& m.next_service + 1 == m.cc708.len() ==> m.frame_done().next_service == 0
        }),
{
    lemma_frame_packet(m);
    let services = m.cc708;
    assert forall|i: int| 0 <= i < services.len() implies 1 <= (#[trigger] services[i]).service
        <= 6 by {
        assert(services[i].wf());
    }
    let at = m.next_service;
    let max = packet_limit(m.rate.triples() - 2);
    let mine = services[at];
    let unit = mine.queue[0].bytes;
    let left = max - 2;
    let room = if left > 31 { 31 } else { left };
    assert(room >= 14);
    let block = taken(mine.queue, room).block;
    let rest = taken(mine.queue.drop_first(), room - unit.len());
    law_blocks_never_split_units(mine.queue, room);
    assert(block == unit + rest.block);
    let next = services.update(at, mine.after_block(room));
    let header = (mine.service * 32 + block.len()) as u8;
    let head = seq![0u8] + seq![header] + block;
    assert forall|x: int| 0 <= x < next.len() implies 1 <= (#[trigger] next[x]).service <= 6 by {
        assert(next[x].service == services[x].service);
    }
    assert forall|x: int, y: int|
        #![trigger next[x], next[y]]
        0 <= x < next.len() && 0 <= y < next.len() && x != y implies next[x].service
        != next[y].service by {
        assert(services[x].service != services[y].service);
    }
    lemma_packed_is_heard(next, at, 1, head, max, at, 0, seq![]);
    let packet = packed(services, at, 0, seq![0u8], max).1;
    assert(packet == packed(next, at, 1, head, max).1);
    assert(packet.take(head.len() as int) == head);
    let whole = packet_bytes(m.frame_triples());
    assert(whole == closed_packet(packet, m.sequence));
    assert forall|x: int| 1 <= x < head.len() implies whole[x] == head[x] by {
        assert(packet.take(head.len() as int)[x] == packet[x]);
    }
    assert(mine.wf());
    assert(whole[1] == header);
    assert(whole.subrange(2, unit.len() + 2int) =~= unit);
}

/// Each channel has a place of its own, those of field 1 the first two.
pub proof fn law_channels_have_their_field(ch: Channel, other: Channel)
    ensures
        0 <= channel_index(ch) < 4,
        channel_index(ch) == channel_index(other) ==> ch == other,
        channel_index(ch) / 2 == (match ch {
            Channel::Cc1 => 0int,
            Channel::Cc2 => 0,
            Channel::Cc3 => 1,
            Channel::Cc4 => 1,
        }),
        channel_index(ch) % 2 == (match ch {
            Channel::Cc1 => 0int,
            Channel::Cc2 => 1,
            Channel::Cc3 => 0,
            Channel::Cc4 => 1,
        }),
{
}

/// A rate is its nominal one, or that slowed down by a thousandth part, to the
/// nearest thousandth of a frame.
pub proof fn law_rates_are_near_their_nominal(rate: FrameRate)
    ensures
        rate.millis() == 1000 * rate.nominal() || -1001 <= 2 * (1001 * rate.millis() - 1_000_000
            * rate.nominal()) <= 1001,
        rate == FrameRate::Fps23_976 || rate == FrameRate::Fps29_97 || rate == FrameRate::Fps59_94
            <==> rate.millis() != 1000 * rate.nominal(),
        rate == FrameRate::Fps25 ==> rate.nominal() == 25,
        rate == FrameRate::Fps50 ==> rate.nominal() == 50,
        rate == FrameRate::Fps24 || rate == FrameRate::Fps23_976 ==> rate.nominal() == 24,
        rate == FrameRate::Fps30 || rate == FrameRate::Fps29_97 ==> rate.nominal() == 30,
        rate == FrameRate::Fps60 || rate == FrameRate::Fps59_94 ==> rate.nominal() == 60,
{
}

/// A service takes the place of the one with its number, or a new place in order,
/// and all other services stay.
pub proof fn law_services_are_placed(services: Seq<Encoder708>, e: Encoder708)
    requires
        forall|i: int, j: int|
            #![trigger services[i], services[j]]
            0 <= i < j < services.len() ==> services[i].service < services[j].service,
    ensures
        ({
            let after = placed(services, e);
            &&& after.contains(e)
            &&& forall|i: int|
                0 <= i < services.len() && (#[trigger] services[i]).service != e.service
                    ==> after.contains(services[i])
            &&& forall|i: int|
                0 <= i < after.len() ==> (#[trigger] after[i]) == e || (services.contains(after[i])
                    && after[i].service != e.service)
            &&& forall|i: int, j: int|
                #![trigger after[i], after[j]]
                0 <= i < j < after.len() ==> after[i].service < after[j].service
        }),
    decreases services.len(),
{
    let after = placed(services, e);
    if services.len() == 0 {
        assert(after[0] == e);
    } else {
        let rest = services.drop_first();
        assert forall|i: int, j: int|
            #![trigger rest[i], rest[j]]
            0 <= i < j < rest.len() implies rest[i].service < rest[j].service by {
            assert(rest[i] == services[i + 1] && rest[j] == services[j + 1]);
        }
        if services[0].service < e.service {
            law_services_are_placed(rest, e);
            let more = placed(rest, e);
            assert(after =~= seq![services[0]] + more);
            let k = choose|k: int| 0 <= k < more.len() && more[k] == e;
            assert(after[k + 1] == e);
            assert forall|i: int|
                0 <= i < services.len() && (#[trigger] services[i]).service
                    != e.service implies after.contains(services[i]) by {
                if i == 0 {
                    assert(after[0] == services[0]);
                } else {
                    assert(rest[i - 1] == services[i]);
                    let m = choose|m: int| 0 <= m < more.len() && more[m] == services[i];
                    assert(after[m + 1] == services[i]);
                }
            }
            assert forall|i: int| 0 <= i < after.len() implies (#[trigger] after[i]) == e || (
            services.contains(after[i]) && after[i].service != e.service) by {
                if i == 0 {
                    assert(services[0] == after[0]);
                } else {
                    assert(after[i] == more[i - 1]);
                    if more[i - 1] != e {
                        let m = choose|m: int| 0 <= m < rest.len() && rest[m] == more[i - 1];
                        assert(services[m + 1] == after[i]);
                    }
                }
            }
            assert forall|i: int, j: int|
                #![trigger after[i], after[j]]
                0 <= i < j < after.len() implies after[i].service < after[j].service by {
                assert(after[j] == more[j - 1]);
                if i > 0 {
                    assert(after[i] == more[i - 1]);
                } else if more[j - 1] != e {
                    let m = choose|m: int| 0 <= m < rest.len() && rest[m] == more[j - 1];
                    assert(services[0].service < services[m + 1].service);
                }
            }
        } else {
            let tail = if services[0].service == e.service {
                rest
            } else {
                services
            };
            let off: int = if services[0].service == e.service {
                1
            } else {
                0
            };
            assert(after =~= seq![e] + tail);
            assert(after[0] == e);
            assert forall|i: int|
                0 <= i < services.len() && (#[trigger] services[i]).service
                    != e.service implies after.contains(services[i]) by {
                assert(after[i - off + 1] == services[i]);
            }
            assert forall|i: int| 0 <= i < after.len() implies (#[trigger] after[i]) == e || (
            services.contains(after[i]) && after[i].service != e.service) by {
                if i > 0 {
                    assert(after[i] == services[i - 1 + off]);
                    if i - 1 + off > 0 {
                        assert(services[0].service < services[i - 1 + off].service);
                    }
                }
            }
            assert forall|i: int, j: int|
                #![trigger after[i], after[j]]
                0 <= i < j < after.len() implies after[i].service < after[j].service by {
                assert(after[j] == services[j - 1 + off]);
                if i > 0 {
                    assert(after[i] == services[i - 1 + off]);
                } else if j - 1 + off > 0 {
                    assert(services[0].service < services[j - 1 + off].service);
                }
            }
        }
    }
}

} // verus!
