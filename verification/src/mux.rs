//! Per-frame caption multiplexer: CC1-CC4 (CEA-608) plus CEA-708 services 1-6
//! into one `cc_data` list per video frame.
use vstd::prelude::*;

use crate::cc::{CcTriple, CcType, Channel};
use crate::cea608::{Cc608Encoder, Encoder608, NULL_BYTE};
use crate::cea708::{law_blocks_never_split_units, law_captions_keep_the_service};
use crate::cea708::{taken, Cc708Encoder, Encoder708, MAX_SERVICE};
use crate::counter::{count, counted};

verus! {

/// Video frame rates with their A/53 / CEA-708 `cc_count`.
#[derive(Clone, Copy, Debug, PartialEq, Eq, Structural)]
pub enum FrameRate {
    Fps23_976,
    Fps24,
    Fps25,
    Fps29_97,
    Fps30,
    Fps50,
    Fps59_94,
    Fps60,
}

impl FrameRate {
    /// Triples per frame.
    pub open spec fn triples(self) -> nat {
        match self {
            FrameRate::Fps23_976 | FrameRate::Fps24 => 25,
            FrameRate::Fps25 => 24,
            FrameRate::Fps29_97 | FrameRate::Fps30 => 20,
            FrameRate::Fps50 => 12,
            FrameRate::Fps59_94 | FrameRate::Fps60 => 10,
        }
    }

    /// Frames a second, NTSC rates rounded up.
    pub open spec fn nominal(self) -> nat {
        match self {
            FrameRate::Fps23_976 | FrameRate::Fps24 => 24,
            FrameRate::Fps25 => 25,
            FrameRate::Fps29_97 | FrameRate::Fps30 => 30,
            FrameRate::Fps50 => 50,
            FrameRate::Fps59_94 | FrameRate::Fps60 => 60,
        }
    }

    /// Whether each 608 field is served on alternate frames only.
    pub open spec fn alternates(self) -> bool {
        self == FrameRate::Fps50 || self == FrameRate::Fps59_94 || self == FrameRate::Fps60
    }

    /// Frames in a thousand seconds.
    pub open spec fn millis(self) -> int {
        match self {
            FrameRate::Fps23_976 => 23_976,
            FrameRate::Fps24 => 24_000,
            FrameRate::Fps25 => 25_000,
            FrameRate::Fps29_97 => 29_970,
            FrameRate::Fps30 => 30_000,
            FrameRate::Fps50 => 50_000,
            FrameRate::Fps59_94 => 59_940,
            FrameRate::Fps60 => 60_000,
        }
    }

    /// How far the rate is from `numer / denom`, in parts of `1000 * denom`.
    pub open spec fn distance(self, numer: u64, denom: u64) -> int {
        let d = 1000 * numer - self.millis() * denom;
        if d < 0 {
            -d
        } else {
            d
        }
    }

    /// The rate is nearest to `numer / denom`; of two as near, the lower one.
    pub open spec fn nearest(self, numer: u64, denom: u64) -> bool {
        forall|other: FrameRate| #[trigger]
            other.distance(numer, denom) > self.distance(numer, denom) || (other.distance(
                numer,
                denom,
            ) == self.distance(numer, denom) && self.millis() <= other.millis())
    }

    fn away(millis: u64, numer: u64, denom: u64) -> (r: u128)
        requires
            millis <= 60_000,
        ensures
            r == {
                let d = 1000 * numer - millis * denom;
                if d < 0 {
                    -d
                } else {
                    d
                }
            },
    {
        assert(millis * denom <= 60_000 * 0xFFFF_FFFF_FFFF_FFFF) by (nonlinear_arith)
            requires
                0 <= millis <= 60_000,
                0 <= denom <= 0xFFFF_FFFF_FFFF_FFFF,
        ;
        let a: u128 = 1000 * numer as u128;
        let b: u128 = millis as u128 * denom as u128;
        if a < b {
            b - a
        } else {
            a - b
        }
    }

    /// Nearest supported rate for a measured rate of `numer / denom` frames per
    /// second (e.g. 2997/100 or 30000/1001). `None` outside 20 to 65 frames per
    /// second.
    pub fn from_fps(numer: u64, denom: u64) -> (r: Option<Self>)
        ensures
            r is Some <==> denom > 0 && 20 * denom <= numer <= 65 * denom,
            r matches Some(rate) ==> rate.nearest(numer, denom),
    {
        if denom == 0 || (numer as u128) < 20 * denom as u128 || numer as u128 > 65
            * denom as u128 {
            return None;
        }
        let mut best = FrameRate::Fps23_976;
        let mut least: u128 = FrameRate::away(23_976, numer, denom);
        let d24 = FrameRate::away(24_000, numer, denom);
        if d24 < least {
            best = FrameRate::Fps24;
            least = d24;
        }
        let d25 = FrameRate::away(25_000, numer, denom);
        if d25 < least {
            best = FrameRate::Fps25;
            least = d25;
        }
        let d29 = FrameRate::away(29_970, numer, denom);
        if d29 < least {
            best = FrameRate::Fps29_97;
            least = d29;
        }
        let d30 = FrameRate::away(30_000, numer, denom);
        if d30 < least {
            best = FrameRate::Fps30;
            least = d30;
        }
        let d50 = FrameRate::away(50_000, numer, denom);
        if d50 < least {
            best = FrameRate::Fps50;
            least = d50;
        }
        let d59 = FrameRate::away(59_940, numer, denom);
        if d59 < least {
            best = FrameRate::Fps59_94;
            least = d59;
        }
        let d60 = FrameRate::away(60_000, numer, denom);
        if d60 < least {
            best = FrameRate::Fps60;
        }
        Some(best)
    }

    /// Triples per frame, fixed for the rate so the caption channel runs at
    /// 9600 bit/s (600 triples/s): 25 @24, 24 @25, 20 @30, 12 @50, 10 @60.
    pub fn cc_count(self) -> (r: usize)
        ensures
            r == self.triples(),
    {
        match self {
            FrameRate::Fps23_976 | FrameRate::Fps24 => 25,
            FrameRate::Fps25 => 24,
            FrameRate::Fps29_97 | FrameRate::Fps30 => 20,
            FrameRate::Fps50 => 12,
            FrameRate::Fps59_94 | FrameRate::Fps60 => 10,
        }
    }

    /// 50/59.94/60 fps: each 608 field gets a pair on alternate frames only,
    /// keeping 608 at its fixed 2 bytes per field per 1/30 s.
    pub fn is_double_rate(self) -> (r: bool)
        ensures
            r == self.alternates(),
    {
        matches!(self, FrameRate::Fps50 | FrameRate::Fps59_94 | FrameRate::Fps60)
    }
}

/// The place of a channel among the four.
pub open spec fn channel_index(ch: Channel) -> int {
    match ch {
        Channel::Cc1 => 0,
        Channel::Cc2 => 1,
        Channel::Cc3 => 2,
        Channel::Cc4 => 3,
    }
}

fn index(ch: Channel) -> (r: usize)
    ensures
        r == channel_index(ch),
        r < 4,
{
    match ch {
        Channel::Cc1 => 0,
        Channel::Cc2 => 1,
        Channel::Cc3 => 2,
        Channel::Cc4 => 3,
    }
}

/// The parts of a triple: validity, type and the two data bytes.
pub type Parts = (bool, CcType, u8, u8);

/// The state of a multiplexer.
#[verifier::ext_equal]
pub struct Mux {
    pub rate: FrameRate,
    pub frame: u64,
    /// The four 608 channels, those with an encoder.
    pub cc608: Seq<Option<Encoder608>>,
    /// The channel that holds each field.
    pub owner: Seq<int>,
    /// The 708 services, by ascending number.
    pub cc708: Seq<Encoder708>,
    /// The service whose turn is first.
    pub next_service: int,
    /// The number of the next DTVCC packet, 0-3.
    pub sequence: u8,
}

/// A list of services with `e` in its place, replacing the one with its number.
pub open spec fn placed(services: Seq<Encoder708>, e: Encoder708) -> Seq<Encoder708>
    decreases services.len(),
{
    if services.len() == 0 {
        seq![e]
    } else if services[0].service < e.service {
        seq![services[0]] + placed(services.drop_first(), e)
    } else if services[0].service == e.service {
        seq![e] + services.drop_first()
    } else {
        seq![e] + services
    }
}

/// The place that is `k` turns after `first` among `n` in a circle.
pub open spec fn turn(first: int, k: int, n: int) -> int {
    if first + k >= n {
        first + k - n
    } else {
        first + k
    }
}

/// The DTVCC packet of a frame while it is filled: the services from `k` turns
/// after `first` on each add a block with what fits, until `max` bytes are used.
pub open spec fn packed(
    services: Seq<Encoder708>,
    first: int,
    k: int,
    packet: Seq<u8>,
    max: int,
) -> (Seq<Encoder708>, Seq<u8>)
    decreases services.len() - k,
{
    let left = max - packet.len() - 1;
    let room = if left > 31 { 31 } else { left };
    let i = turn(first, k, services.len() as int);
    if k >= services.len() || room <= 0 || !(0 <= i < services.len()) {
        (services, packet)
    } else {
        let block = taken(services[i].queue, room).block;
        let after = services.update(i, services[i].after_block(room));
        if block.len() == 0 {
            packed(after, first, k + 1, packet, max)
        } else {
            packed(
                after,
                first,
                k + 1,
                packet + seq![(services[i].service * 32 + block.len()) as u8] + block,
                max,
            )
        }
    }
}

/// The most bytes of a packet that may take `slots` triples.
pub open spec fn packet_limit(slots: int) -> int {
    if slots >= 64 {
        128
    } else {
        2 * slots
    }
}

/// A packet with its header filled in, padded to an even length with a null
/// block header.
pub open spec fn closed_packet(packet: Seq<u8>, sequence: u8) -> Seq<u8> {
    let even = if packet.len() % 2 == 1 {
        packet.push(0)
    } else {
        packet
    };
    even.update(0, (sequence * 64 + (even.len() / 2) % 64) as u8)
}

/// The triples of a packet: the first pair starts it, the rest is data.
pub open spec fn packet_triples(packet: Seq<u8>) -> Seq<Parts> {
    Seq::new(
        packet.len() / 2,
        |k: int|
            (
                true,
                if k == 0 {
                    CcType::DtvccStart
                } else {
                    CcType::DtvccData
                },
                packet[2 * k],
                packet[2 * k + 1],
            ),
    )
}

/// A list of triples filled up to `n` with invalid padding.
pub open spec fn padded(triples: Seq<Parts>, n: nat) -> Seq<Parts> {
    triples + Seq::new(
        (n - triples.len()) as nat,
        |k: int| (false, CcType::DtvccData, 0u8, 0u8),
    )
}

impl Mux {
    /// Channel `i` has pairs waiting.
    pub open spec fn busy(self, i: int) -> bool {
        self.cc608[i] matches Some(e) && e.queue.len() > 0
    }

    /// Channel `i` is in the middle of a line.
    pub open spec fn mid_line(self, i: int) -> bool {
        self.cc608[i] matches Some(e) && e.queue.len() > 0 && !e.queue[0].boundary
    }

    /// The other channel of the owner's field.
    pub open spec fn other(self, f: int) -> int {
        4 * f + 1 - self.owner[f]
    }

    /// The channel that gets field `f`: its owner in the middle of a line or when
    /// the other has nothing to send, else the other if it has something.
    pub open spec fn picked(self, f: int) -> Option<int> {
        let owner = self.owner[f];
        let other = self.other(f);
        if self.mid_line(owner) || (self.busy(owner) && !self.busy(other)) {
            Some(owner)
        } else if self.busy(other) {
            Some(other)
        } else {
            None
        }
    }

    /// The pair that field `f` carries next, the null pair when idle.
    pub open spec fn field_bytes(self, f: int) -> (u8, u8) {
        match self.picked(f) {
            Some(i) => (self.cc608[i]->0.queue[0].hi, self.cc608[i]->0.queue[0].lo),
            None => (NULL_BYTE, NULL_BYTE),
        }
    }

    /// The state once field `f` was served.
    pub open spec fn field_served(self, f: int) -> Mux {
        match self.picked(f) {
            Some(i) => Mux {
                owner: self.owner.update(f, i),
                cc608: self.cc608.update(
                    i,
                    Some(
                        Encoder608 {
                            queue: self.cc608[i]->0.queue.drop_first(),
                            ..self.cc608[i]->0
                        },
                    ),
                ),
                ..self
            },
            None => self,
        }
    }

    /// Whether field `f` is served this frame.
    pub open spec fn serves(self, f: int) -> bool {
        self.rate.alternates() ==> self.frame % 2 == f
    }

    /// The state once field `f` had its turn.
    pub open spec fn field_done(self, f: int) -> Mux {
        if self.serves(f) {
            self.field_served(f)
        } else {
            self
        }
    }

    /// The triple of field `f`.
    pub open spec fn field_triple(self, f: int) -> Parts {
        let cc_type = if f == 0 {
            CcType::Field1
        } else {
            CcType::Field2
        };
        if self.serves(f) {
            (true, cc_type, self.field_bytes(f).0, self.field_bytes(f).1)
        } else {
            (false, cc_type, NULL_BYTE, NULL_BYTE)
        }
    }

    /// Services and packet bytes once a packet is filled that may take `slots`
    /// triples.
    pub open spec fn filled(self, slots: int) -> (Seq<Encoder708>, Seq<u8>) {
        packed(self.cc708, self.next_service, 0, seq![0u8], packet_limit(slots))
    }

    /// The DTVCC triples of a frame with `slots` triples left, without padding.
    pub open spec fn dtvcc_triples(self, slots: int) -> Seq<Parts> {
        let packet = self.filled(slots).1;
        if packet.len() > 1 {
            packet_triples(closed_packet(packet, self.sequence))
        } else {
            seq![]
        }
    }

    /// The state once the packet for `slots` triples is gone.
    pub open spec fn dtvcc_done(self, slots: int) -> Mux {
        Mux {
            cc708: self.filled(slots).0,
            next_service: if self.cc708.len() > 0 {
                turn(self.next_service, 1, self.cc708.len() as int)
            } else {
                self.next_service
            },
            sequence: if self.filled(slots).1.len() > 1 {
                ((self.sequence + 1) % 4) as u8
            } else {
                self.sequence
            },
            ..self
        }
    }

    /// This frame's triples: both fields, the DTVCC packet, padding.
    pub open spec fn frame_triples(self) -> Seq<Parts> {
        padded(
            seq![self.field_triple(0), self.field_done(0).field_triple(1)]
                + self.field_done(0).field_done(1).dtvcc_triples(self.rate.triples() - 2),
            self.rate.triples(),
        )
    }

    /// The state once this frame's triples were taken.
    pub open spec fn frame_done(self) -> Mux {
        Mux {
            frame: counted(self.frame, 1),
            ..self.field_done(0).field_done(1).dtvcc_done(self.rate.triples() - 2)
        }
    }

    /// Four channels, each field owned by one of its two, services in strictly
    /// ascending order, and every encoder in order itself.
    pub open spec fn wf(self) -> bool {
        &&& self.cc608.len() == 4
        &&& self.owner.len() == 2
        &&& 0 <= self.owner[0] <= 1
        &&& 2 <= self.owner[1] <= 3
        &&& self.sequence < 4
        &&& self.cc708.len() <= MAX_SERVICE
        &&& self.next_service == 0 || 0 <= self.next_service < self.cc708.len()
        &&& forall|i: int| 0 <= i < 4 && (#[trigger] self.cc608[i]) is Some ==> self.cc608[i]->0.wf()
        &&& forall|i: int| 0 <= i < self.cc708.len() ==> (#[trigger] self.cc708[i]).wf()
        &&& forall|i: int, j: int|
            #![trigger self.cc708[i], self.cc708[j]]
            0 <= i < j < self.cc708.len() ==> self.cc708[i].service < self.cc708[j].service
    }

    /// The state with another list of 608 encoders.
    pub open spec fn with_608(self, ch: Channel, e: Encoder608) -> Mux {
        Mux { cc608: self.cc608.update(channel_index(ch), Some(e)), ..self }
    }

    /// Nothing is queued anywhere.
    pub open spec fn idle(self) -> bool {
        &&& forall|i: int| 0 <= i < 4 ==> !#[trigger] self.busy(i)
        &&& forall|i: int|
            0 <= i < self.cc708.len() ==> (#[trigger] self.cc708[i]).queue.len() == 0
    }

    /// The place of a service, if it has an encoder.
    pub open spec fn has_service(self, service: u8, i: int) -> bool {
        0 <= i < self.cc708.len() && self.cc708[i].service == service
    }
}

/// Per-frame caption multiplexer.
///
/// Holds up to four 608 encoders (one per channel) and up to six 708
/// encoders (one per service). Call [`next_frame`](Self::next_frame) once per
/// video frame **in display order** and put the result in that frame's SEI
/// with [`crate::cc::h264_sei_nal`] / [`crate::cc::hevc_sei_nal`].
///
/// Each frame's list is always exactly [`FrameRate::cc_count`] triples:
///
/// 1. one field-1 triple (CC1/CC2), then one field-2 triple (CC3/CC4) -
///    a null pair (0x80 0x80) when idle; at 50/60 fps the field not served
///    this frame is marked `valid = false`;
/// 2. `cc_count - 2` DTVCC triples: at most one DTVCC packet per frame (first
///    pair `DtvccStart`, rest `DtvccData`), then invalid padding.
///
/// Two channels on one field (CC1+CC2 or CC3+CC4) share its bandwidth: they
/// take turns a caption line at a time.
#[derive(Clone, Debug)]
pub struct CcMux {
    rate: FrameRate,
    frame: u64,
    /// One slot per channel.
    cc608: Vec<Option<Cc608Encoder>>,
    /// Channel index (0-3) currently holding each field.
    field1_owner: usize,
    field2_owner: usize,
    cc708: Vec<Cc708Encoder>,
    next_service: usize,
    sequence: u8,
}

/// The states of the 608 encoders.
pub open spec fn views_608(list: Seq<Option<Cc608Encoder>>) -> Seq<Option<Encoder608>> {
    list.map_values(
        |slot: Option<Cc608Encoder>|
            match slot {
                Some(e) => Some(e@),
                None => None,
            },
    )
}

/// The states of the 708 encoders.
pub open spec fn views_708(list: Seq<Cc708Encoder>) -> Seq<Encoder708> {
    list.map_values(|e: Cc708Encoder| e@)
}

impl View for CcMux {
    type V = Mux;

    closed spec fn view(&self) -> Mux {
        Mux {
            rate: self.rate,
            frame: self.frame,
            cc608: views_608(self.cc608@),
            owner: seq![self.field1_owner as int, self.field2_owner as int],
            cc708: views_708(self.cc708@),
            next_service: self.next_service as int,
            sequence: self.sequence,
        }
    }
}

proof fn lemma_services_bounded(list: Seq<Encoder708>, n: int)
    requires
        0 <= n < list.len(),
        forall|i: int| 0 <= i < list.len() ==> (#[trigger] list[i]).wf(),
        forall|i: int, j: int|
            #![trigger list[i], list[j]]
            0 <= i < j < list.len() ==> list[i].service < list[j].service,
    ensures
        list[n].service >= n + 1,
    decreases n,
{
    assert(list[n].wf());
    if n > 0 {
        lemma_services_bounded(list, n - 1);
    }
}

proof fn lemma_placed(services: Seq<Encoder708>, e: Encoder708, i: int)
    requires
        0 <= i <= services.len(),
        forall|k: int| 0 <= k < i ==> (#[trigger] services[k]).service < e.service,
        i < services.len() ==> services[i].service >= e.service,
    ensures
        i < services.len() && services[i].service == e.service ==> placed(services, e)
            == services.update(i, e),
        i == services.len() || services[i].service > e.service ==> placed(services, e)
            == services.insert(i, e),
    decreases services.len(),
{
    if services.len() == 0 {
        assert(services.insert(0, e) =~= seq![e]);
    } else if i > 0 {
        let rest = services.drop_first();
        assert(services[0].service < e.service);
        assert forall|k: int| 0 <= k < i - 1 implies (#[trigger] rest[k]).service < e.service by {
            assert(rest[k] == services[k + 1]);
        }
        lemma_placed(rest, e, i - 1);
        if i < services.len() && services[i].service == e.service {
            assert(seq![services[0]] + rest.update(i - 1, e) =~= services.update(i, e));
        } else {
            assert(seq![services[0]] + rest.insert(i - 1, e) =~= services.insert(i, e));
        }
    } else {
        if services[0].service == e.service {
            assert(seq![e] + services.drop_first() =~= services.update(0, e));
        } else {
            assert(seq![e] + services =~= services.insert(0, e));
        }
    }
}

impl CcMux {
    pub fn new(rate: FrameRate) -> (r: Self)
        ensures
            r@.wf(),
            r@ == (Mux {
                rate,
                frame: 0,
                cc608: seq![None, None, None, None],
                owner: seq![0, 2],
                cc708: seq![],
                next_service: 0,
                sequence: 0,
            }),
    {
        let r = CcMux {
            rate,
            frame: 0,
            cc608: vec![None, None, None, None],
            field1_owner: 0,
            field2_owner: 2,
            cc708: Vec::new(),
            next_service: 0,
            sequence: 0,
        };
        assert(r@.cc608 =~= seq![None, None, None, None]);
        assert(r@.cc708 =~= seq![]);
        r
    }

    pub fn rate(&self) -> (r: FrameRate)
        ensures
            r == self@.rate,
    {
        self.rate
    }

    /// Triples per frame returned by [`next_frame`](Self::next_frame).
    pub fn cc_count(&self) -> (r: usize)
        ensures
            r == self@.rate.triples(),
    {
        self.rate.cc_count()
    }

    /// Frames produced so far.
    pub fn frame_count(&self) -> (r: u64)
        ensures
            r == self@.frame,
    {
        self.frame
    }

    /// Adds (or replaces) the encoder for its channel.
    pub fn add_608(&mut self, enc: Cc608Encoder)
        requires
            old(self)@.wf(),
            enc@.wf(),
        ensures
            final(self)@.wf(),
            final(self)@ == old(self)@.with_608(enc@.channel, enc@),
    {
        let i: usize = index(enc.channel());
        let ghost before = self@;
        let ghost state = enc@;
        self.cc608.set(i, Some(enc));
        assert(self@ =~= before.with_608(state.channel, state));
    }

    /// Adds (or replaces) the encoder for its service.
    pub fn add_708(&mut self, enc: Cc708Encoder)
        requires
            old(self)@.wf(),
            enc@.wf(),
        ensures
            final(self)@.wf(),
            final(self)@ == (Mux { cc708: placed(old(self)@.cc708, enc@), ..old(self)@ }),
    {
        let service: u8 = enc.service();
        let ghost before = self@;
        let ghost list = self@.cc708;
        let ghost state = enc@;
        let mut i: usize = 0;
        while i < self.cc708.len() && self.cc708[i].service() < service
            invariant
                i <= self.cc708.len(),
                self@ == before,
                list == views_708(self.cc708@),
                forall|k: int| 0 <= k < i ==> (#[trigger] list[k]).service < service,
            decreases self.cc708.len() - i,
        {
            assert(list[i as int] == self.cc708@[i as int]@);
            i = i + 1;
        }
        assert(i < list.len() ==> list[i as int] == self.cc708@[i as int]@);
        proof {
            lemma_placed(list, state, i as int);
        }
        if i < self.cc708.len() && self.cc708[i].service() == service {
            self.cc708.set(i, enc);
            assert(self@.cc708 =~= list.update(i as int, state));
        } else {
            self.cc708.insert(i, enc);
            assert(self@.cc708 =~= list.insert(i as int, state));
            proof {
                assert forall|a: int, b: int|
                    #![trigger self@.cc708[a], self@.cc708[b]]
                    0 <= a < b < self@.cc708.len() implies self@.cc708[a].service
                    < self@.cc708[b].service by {
                    let x = if a < i { a } else { a - 1 };
                    let y = if b < i { b } else { b - 1 };
                    if a != i && b != i {
                        assert(list[x].service < list[y].service);
                    } else if a == i {
                        assert(list[y].service >= list[i as int].service);
                    }
                }
                lemma_services_bounded(self@.cc708, self@.cc708.len() - 1);
            }
        }
        assert(self@ =~= (Mux { cc708: placed(before.cc708, state), ..before }));
    }

    pub fn cc608_mut(&mut self, ch: Channel) -> (r: Option<&mut Cc608Encoder>)
        requires
            old(self)@.wf(),
        ensures
            r is Some <==> old(self)@.cc608[channel_index(ch)] is Some,
            r is None ==> final(self)@ == old(self)@,
            r matches Some(e) ==> {
                &&& (*e)@ == old(self)@.cc608[channel_index(ch)]->0
                &&& (*e)@.wf()
                &&& final(self)@ == old(self)@.with_608(ch, (*final(e))@)
                &&& (*final(e))@.wf() ==> final(self)@.wf()
            },
    {
        let i: usize = index(ch);
        let ghost list = self.cc608@;
        let slot = &mut self.cc608[i];
        match slot {
            Some(e) => {
                proof {
                    assert(views_608(list.update(i as int, Some(*final(e)))) =~= views_608(
                        list,
                    ).update(i as int, Some((*final(e))@)));
                }
                Some(e)
            },
            None => {
                proof {
                    assert(list.update(i as int, None) =~= list);
                }
                None
            },
        }
    }

    pub fn cc708_mut(&mut self, service: u8) -> (r: Option<&mut Cc708Encoder>)
        requires
            old(self)@.wf(),
        ensures
            r is Some <==> exists|i: int| old(self)@.has_service(service, i),
            r is None ==> *final(self) == *old(self),
            r matches Some(e) ==> exists|i: int|
                {
                    &&& #[trigger] old(self)@.has_service(service, i)
                    &&& (*e)@ == old(self)@.cc708[i]
                    &&& (*e)@.wf()
                    &&& final(self)@ == (Mux {
                        cc708: old(self)@.cc708.update(i, (*final(e))@),
                        ..old(self)@
                    })
                    &&& (*final(e))@.wf() && (*final(e))@.service == service ==> final(self)@.wf()
                },
    {
        let mut i: usize = 0;
        while i < self.cc708.len() && self.cc708[i].service() != service
            invariant
                i <= self.cc708.len(),
                *self == *old(self),
                forall|k: int| 0 <= k < i ==> !#[trigger] self@.has_service(service, k),
            decreases self.cc708.len() - i,
        {
            i = i + 1;
        }
        if i < self.cc708.len() {
            assert(old(self)@.has_service(service, i as int));
            Some(&mut self.cc708[i])
        } else {
            None
        }
    }

    /// Queues text on a 608 channel. Returns false if that channel has no encoder.
    pub fn push_text_608(&mut self, ch: Channel, text: &str) -> (r: bool)
        requires
            old(self)@.wf(),
        ensures
            final(self)@.wf(),
            r == old(self)@.cc608[channel_index(ch)] is Some,
            !r ==> final(self)@ == old(self)@,
            r ==> final(self)@ == old(self)@.with_608(
                ch,
                old(self)@.cc608[channel_index(ch)]->0.captioned(text@),
            ),
    {
        match self.cc608_mut(ch) {
            Some(e) => {
                e.push_text(text);
                true
            },
            None => false,
        }
    }

    /// Queues text on a 708 service. Returns false if that service has no encoder.
    pub fn push_text_708(&mut self, service: u8, text: &str) -> (r: bool)
        requires
            old(self)@.wf(),
        ensures
            final(self)@.wf(),
            r <==> exists|i: int| old(self)@.has_service(service, i),
            !r ==> *final(self) == *old(self),
            r ==> exists|i: int|
                {
                    &&& #[trigger] old(self)@.has_service(service, i)
                    &&& final(self)@ == (Mux {
                        cc708: old(self)@.cc708.update(
                            i,
                            old(self)@.cc708[i].captioned(text@),
                        ),
                        ..old(self)@
                    })
                },
    {
        match self.cc708_mut(service) {
            Some(e) => {
                let ghost before = (*e)@;
                e.push_text(text);
                proof {
                    law_captions_keep_the_service(before, text@);
                }
                true
            },
            None => false,
        }
    }

    /// True when nothing is queued anywhere.
    pub fn is_idle(&self) -> (r: bool)
        requires
            self@.wf(),
        ensures
            r == self@.idle(),
    {
        let ghost state = self@;
        let mut i: usize = 0;
        while i < 4
            invariant
                i <= 4,
                state == self@,
                state.wf(),
                state.cc608 == views_608(self.cc608@),
                forall|k: int| 0 <= k < i ==> !#[trigger] state.busy(k),
            decreases 4 - i,
        {
            match &self.cc608[i] {
                Some(e) => {
                    assert(state.cc608[i as int] == Some(e@));
                    if e.pending() > 0 {
                        assert(state.busy(i as int));
                        return false;
                    }
                },
                None => {},
            }
            i = i + 1;
        }
        let mut j: usize = 0;
        while j < self.cc708.len()
            invariant
                j <= self.cc708.len(),
                state == self@,
                state.cc708 == views_708(self.cc708@),
                forall|k: int| 0 <= k < 4 ==> !#[trigger] state.busy(k),
                forall|k: int| 0 <= k < j ==> (#[trigger] state.cc708[k]).queue.len() == 0,
            decreases self.cc708.len() - j,
        {
            assert(state.cc708[j as int] == self.cc708@[j as int]@);
            if !self.cc708[j].is_idle() {
                return false;
            }
            j = j + 1;
        }
        true
    }

    /// This frame's `cc_data` triples (exactly [`cc_count`](Self::cc_count)).
    pub fn next_frame(&mut self) -> (r: Vec<CcTriple>)
        requires
            old(self)@.wf(),
        ensures
            final(self)@.wf(),
            final(self)@ == old(self)@.frame_done(),
            r@.map_values(|t: CcTriple| t.parts()) == old(self)@.frame_triples(),
            r@.len() == old(self)@.rate.triples(),
    {
        let n: usize = self.rate.cc_count();
        let mut out: Vec<CcTriple> = Vec::new();
        let first = self.field_turn(0, CcType::Field1);
        let second = self.field_turn(1, CcType::Field2);
        out.push(first);
        out.push(second);
        let ghost start = out@.map_values(|t: CcTriple| t.parts());
        assert(start =~= seq![
            old(self)@.field_triple(0),
            old(self)@.field_done(0).field_triple(1),
        ]);
        self.dtvcc(&mut out, n);
        self.frame = count(self.frame, 1);
        proof {
            assert(self@ =~= old(self)@.frame_done());
        }
        out
    }

    /// The triple of field `f` (0 or 1) for this frame.
    fn field_turn(&mut self, f: u64, cc_type: CcType) -> (r: CcTriple)
        requires
            old(self)@.wf(),
            f <= 1,
            cc_type == (if f == 0 {
                CcType::Field1
            } else {
                CcType::Field2
            }),
        ensures
            final(self)@.wf(),
            final(self)@ == old(self)@.field_done(f as int),
            r.parts() == old(self)@.field_triple(f as int),
    {
        if !self.rate.is_double_rate() || self.frame % 2 == f {
            match self.field_pair(f as usize) {
                Some(pair) => CcTriple::new(cc_type, pair),
                None => CcTriple::new(cc_type, [NULL_BYTE, NULL_BYTE]),
            }
        } else {
            CcTriple { valid: false, cc_type, data: [NULL_BYTE, NULL_BYTE] }
        }
    }

    /// Whether channel `i` has pairs waiting.
    fn is_busy(&self, i: usize) -> (r: bool)
        requires
            self@.wf(),
            i < 4,
        ensures
            r == self@.busy(i as int),
    {
        assert(self@.cc608[i as int] == views_608(self.cc608@)[i as int]);
        match &self.cc608[i] {
            Some(e) => e.pending() > 0,
            None => false,
        }
    }

    /// Whether channel `i` is in the middle of a line.
    fn is_mid_line(&self, i: usize) -> (r: bool)
        requires
            self@.wf(),
            i < 4,
        ensures
            r == self@.mid_line(i as int),
    {
        assert(self@.cc608[i as int] == views_608(self.cc608@)[i as int]);
        match &self.cc608[i] {
            Some(e) => !e.at_boundary(),
            None => false,
        }
    }

    /// Next pair for field `f` (0 or 1), switching between its two channels
    /// only at line boundaries.
    fn field_pair(&mut self, f: usize) -> (r: Option<[u8; 2]>)
        requires
            old(self)@.wf(),
            f <= 1,
        ensures
            final(self)@.wf(),
            final(self)@ == old(self)@.field_served(f as int),
            r is None ==> old(self)@.field_bytes(f as int) == (NULL_BYTE, NULL_BYTE),
            r matches Some(p) ==> old(self)@.field_bytes(f as int) == (p@[0], p@[1]),
    {
        let owner: usize = if f == 0 { self.field1_owner } else { self.field2_owner };
        let ghost before = self@;
        assert(owner == before.owner[f as int]);
        let other: usize = 4 * f + 1 - owner;
        let pick: usize = if self.is_mid_line(owner) || (self.is_busy(owner) && !self.is_busy(
            other,
        )) {
            owner
        } else if self.is_busy(other) {
            other
        } else {
            return None;
        };
        assert(before.picked(f as int) == Some(pick as int));
        if f == 0 {
            self.field1_owner = pick;
        } else {
            self.field2_owner = pick;
        }
        assert(self@ =~= (Mux { owner: before.owner.update(f as int, pick as int), ..before }));
        let ghost owned = self@;
        let ghost list = self.cc608@;
        let slot = &mut self.cc608[pick];
        match slot {
            Some(e) => {
                assert(Some((*e)@) == before.cc608[pick as int]);
                let r = e.next_pair();
                proof {
                    assert(views_608(list.update(pick as int, Some(*e))) =~= views_608(
                        list,
                    ).update(pick as int, Some((*e)@)));
                }
                r
            },
            None => None,
        }
    }

    /// Appends one DTVCC packet (if any service has data) and padding up to `n`.
    fn dtvcc(&mut self, out: &mut Vec<CcTriple>, n: usize)
        requires
            old(self)@.wf(),
            old(out)@.len() <= n,
        ensures
            final(self)@.wf(),
            final(self)@ == old(self)@.dtvcc_done(n - old(out)@.len()),
            final(out)@.len() == n,
            final(out)@.map_values(|t: CcTriple| t.parts()) == padded(
                old(out)@.map_values(|t: CcTriple| t.parts()) + old(self)@.dtvcc_triples(
                    n - old(out)@.len(),
                ),
                n as nat,
            ),
    {
        let ghost before = self@;
        let ghost slots = n - out@.len();
        let max: usize = if n - out.len() >= 64 {
            128
        } else {
            (n - out.len()) * 2
        };
        let mut packet: Vec<u8> = vec![0u8];
        let total: usize = self.cc708.len();
        let ghost want = self@.filled(slots);
        assert(packet@ == seq![0u8]);
        let mut k: usize = 0;
        while k < total && packet.len() + 1 < max
            invariant
                k <= total,
                total == before.cc708.len(),
                total == self.cc708.len(),
                total <= MAX_SERVICE,
                max <= 128,
                before.wf(),
                self@.wf(),
                self@ == (Mux { cc708: self@.cc708, ..before }),
                1 <= packet.len(),
                packet.len() == 1 || packet.len() <= max,
                want == packed(
                    self@.cc708,
                    before.next_service,
                    k as int,
                    packet@,
                    max as int,
                ),
            ensures
                total == self.cc708.len(),
                self@.wf(),
                self@ == (Mux { cc708: want.0, ..before }),
                packet@ == want.1,
                1 <= packet.len(),
                packet.len() == 1 || packet.len() <= max,
            decreases total - k,
        {
            let ghost here = self@.cc708;
            let i: usize = if self.next_service + k >= total {
                self.next_service + k - total
            } else {
                self.next_service + k
            };
            let left: usize = max - packet.len() - 1;
            let room: usize = if left > 31 { 31 } else { left };
            assert(i == turn(before.next_service, k as int, total as int));
            let ghost state = here[i as int];
            let ghost list = self.cc708@;
            assert(state == list[i as int]@);
            assert(state.wf());
            let enc = &mut self.cc708[i];
            let mut block = enc.take_block(room);
            let service: u8 = enc.service();
            assert(views_708(list.update(i as int, *enc)) =~= here.update(
                i as int,
                state.after_block(room as int),
            ));
            assert(self@.cc708 == here.update(i as int, state.after_block(room as int)));
            let ghost bytes = block@;
            let ghost head = packet@;
            if block.len() > 0 {
                packet.push(service * 32 + block.len() as u8);
                packet.append(&mut block);
                assert(packet@ == head + seq![(service * 32 + bytes.len()) as u8] + bytes);
            }
            k = k + 1;
        }
        if total > 0 {
            self.next_service = if self.next_service + 1 >= total {
                self.next_service + 1 - total
            } else {
                self.next_service + 1
            };
        }
        let ghost start = out@.map_values(|t: CcTriple| t.parts());
        let ghost mut sent: Seq<Parts> = seq![];
        if packet.len() > 1 {
            if packet.len() % 2 == 1 {
                packet.push(0);  // null service block header ends the packet
            }
            let size_code: u8 = ((packet.len() / 2) % 64) as u8;
            let ghost even = packet@;
            packet.set(0, self.sequence * 64 + size_code);
            assert(packet@ == closed_packet(want.1, before.sequence));
            self.sequence = (self.sequence + 1) % 4;
            proof {
                sent = packet_triples(packet@);
            }
            let mut j: usize = 0;
            assert(start + sent.take(0) =~= start);
            while 2 * j < packet.len()
                invariant
                    packet.len() % 2 == 0,
                    packet.len() <= max,
                    max <= 128,
                    start.len() + slots == n,
                    max <= 2 * slots,
                    2 * j <= packet.len(),
                    sent == packet_triples(packet@),
                    out@.map_values(|t: CcTriple| t.parts()) == start + sent.take(j as int),
                    out@.len() == start.len() + j,
                decreases packet.len() - j,
            {
                let t = if j == 0 { CcType::DtvccStart } else { CcType::DtvccData };
                let triple = CcTriple::new(t, [packet[2 * j], packet[2 * j + 1]]);
                let ghost prev = out@.map_values(|t: CcTriple| t.parts());
                out.push(triple);
                assert(triple.parts() == sent[j as int]);
                assert(out@.map_values(|t: CcTriple| t.parts()) =~= prev.push(sent[j as int]));
                assert(start + sent.take(j + 1) =~= prev.push(sent[j as int]));
                j = j + 1;
            }
            assert(sent.take(j as int) =~= sent);
        } else {
            assert(start + sent =~= start);
        }
        assert(sent == before.dtvcc_triples(slots));
        let ghost filled = start + sent;
        assert(out@.map_values(|t: CcTriple| t.parts()) == filled);
        let ghost base = out@.len();
        assert(base <= n);
        let ghost pad = (false, CcType::DtvccData, 0u8, 0u8);
        while out.len() < n
            invariant
                base <= out@.len() <= n,
                base == filled.len(),
                pad == (false, CcType::DtvccData, 0u8, 0u8),
                out@.map_values(|t: CcTriple| t.parts()) == filled + Seq::new(
                    (out@.len() - base) as nat,
                    |k: int| pad,
                ),
            decreases n - out.len(),
        {
            let ghost prev = out@.map_values(|t: CcTriple| t.parts());
            let ghost extra = (out@.len() - base) as nat;
            let triple = CcTriple { valid: false, cc_type: CcType::DtvccData, data: [0, 0] };
            out.push(triple);
            assert(triple.parts() == pad);
            assert(out@.map_values(|t: CcTriple| t.parts()) =~= prev.push(pad));
            assert(prev.push(pad) =~= filled + Seq::new(extra + 1, |k: int| pad));
        }
        assert(filled + Seq::new((n - base) as nat, |k: int| pad) =~= padded(filled, n as nat));
        proof {
            assert(self@ =~= before.dtvcc_done(slots));
        }
    }
}

proof fn lemma_packed_fits(
    services: Seq<Encoder708>,
    first: int,
    k: int,
    packet: Seq<u8>,
    max: int,
)
    requires
        1 <= packet.len() <= max,
    ensures
        packet.len() <= packed(services, first, k, packet, max).1.len() <= max,
        packed(services, first, k, packet, max).0.len() == services.len(),
    decreases services.len() - k,
{
    let left = max - packet.len() - 1;
    let room = if left > 31 { 31 } else { left };
    let i = turn(first, k, services.len() as int);
    if k >= services.len() || room <= 0 || !(0 <= i < services.len()) {
    } else {
        let block = taken(services[i].queue, room).block;
        let after = services.update(i, services[i].after_block(room));
        law_blocks_never_split_units(services[i].queue, room);
        if block.len() == 0 {
            lemma_packed_fits(after, first, k + 1, packet, max);
        } else {
            lemma_packed_fits(
                after,
                first,
                k + 1,
                packet + seq![(services[i].service * 32 + block.len()) as u8] + block,
                max,
            );
        }
    }
}

proof fn lemma_idle_packs_nothing(
    services: Seq<Encoder708>,
    first: int,
    k: int,
    packet: Seq<u8>,
    max: int,
)
    requires
        forall|i: int| 0 <= i < services.len() ==> (#[trigger] services[i]).queue.len() == 0,
        0 <= k,
    ensures
        packed(services, first, k, packet, max).1 == packet,
        forall|i: int|
            0 <= i < packed(services, first, k, packet, max).0.len() ==> (#[trigger] packed(
                services,
                first,
                k,
                packet,
                max,
            ).0[i]).queue.len() == 0,
    decreases services.len() - k,
{
    let left = max - packet.len() - 1;
    let room = if left > 31 { 31 } else { left };
    let i = turn(first, k, services.len() as int);
    if k >= services.len() || room <= 0 || !(0 <= i < services.len()) {
    } else {
        assert(services[i].queue.len() == 0);
        let after = services.update(i, services[i].after_block(room));
        assert(services[i].queue.skip(0) =~= services[i].queue);
        lemma_idle_packs_nothing(after, first, k + 1, packet, max);
    }
}

/// Every frame has exactly the rate's number of triples: one of field 1, one of
/// field 2, then DTVCC triples of which only the first can start a packet. Both
/// fields are valid, or exactly one at the rates that alternate.
pub proof fn law_frame_layout(m: Mux)
    requires
        m.wf(),
    ensures
        m.frame_triples().len() == m.rate.triples(),
        m.frame_triples()[0].1 == CcType::Field1,
        m.frame_triples()[1].1 == CcType::Field2,
        forall|i: int|
            2 <= i < m.rate.triples() ==> (#[trigger] m.frame_triples()[i]).1 == CcType::DtvccData
                || (i == 2 && m.frame_triples()[i].1 == CcType::DtvccStart),
        !m.rate.alternates() ==> m.frame_triples()[0].0 && m.frame_triples()[1].0,
        m.rate.alternates() ==> m.frame_triples()[0].0 != m.frame_triples()[1].0,
{
    let served = m.field_done(0).field_done(1);
    lemma_packed_fits(
        served.cc708,
        served.next_service,
        0,
        seq![0u8],
        2 * (m.rate.triples() - 2),
    );
    assert(served.dtvcc_triples(m.rate.triples() - 2).len() <= m.rate.triples() - 2);
}

/// A DTVCC packet fits behind what a frame of `n` triples holds already. All its
/// triples are valid; the first starts it and the others are data. Its first byte
/// holds the number of triples modulo 64 and the packet's number; packets are
/// numbered in turn, modulo 4, and neither the fields nor a frame without a packet
/// take a number. Behind it only padding fills up the frame.
pub proof fn law_packet_structure(m: Mux, head: Seq<Parts>, n: nat)
    requires
        m.wf(),
        head.len() <= n,
    ensures
        ({
            let at = head.len() as int;
            let t = m.dtvcc_triples(n - at);
            let after = m.dtvcc_done(n - at);
            let frame = padded(head + t, n);
            &&& t.len() <= n - at
            &&& forall|k: int|
                0 <= k < t.len() ==> {
                    &&& (#[trigger] t[k]).0
                    &&& t[k].1 == (if k == 0 {
                        CcType::DtvccStart
                    } else {
                        CcType::DtvccData
                    })
                }
            &&& t.len() > 0 ==> {
                &&& t[0].2 & 0x3F == t.len() % 64
                &&& t[0].2 >> 6 == m.sequence
                &&& after.sequence == (m.sequence + 1) % 4
            }
            &&& t.len() == 0 ==> after.sequence == m.sequence
            &&& m.field_done(0).field_done(1).sequence == m.sequence
            &&& frame.len() == n
            &&& frame.take(at) == head
            &&& frame.subrange(at, at + t.len()) == t
            &&& forall|k: int|
                at + t.len() <= k < n ==> #[trigger] frame[k] == (
                    false,
                    CcType::DtvccData,
                    0u8,
                    0u8,
                )
        }),
{
    let at = head.len() as int;
    let slots = n - at;
    if slots > 0 {
        lemma_packed_fits(m.cc708, m.next_service, 0, seq![0u8], packet_limit(slots));
    }
    let t = m.dtvcc_triples(slots);
    let packet = m.filled(slots).1;
    if packet.len() > 1 {
        let s = m.sequence;
        let size = (t.len() % 64) as u8;
        let d: u8 = (s * 64 + size) as u8;
        assert(t[0].2 == d);
        assert(d & 0x3F == size && d >> 6 == s) by (bit_vector)
            requires
                s < 4,
                size < 64,
                d == (s * 64 + size) as u8,
        ;
    }
    let frame = padded(head + t, n);
    assert(frame.take(at) =~= head);
    assert(frame.subrange(at, at + t.len()) =~= t);
}

/// A field goes from one of its channels to the other only where the first is
/// not in the middle of a line.
pub proof fn law_fields_change_hands_between_lines(m: Mux, f: int)
    requires
        m.wf(),
        0 <= f <= 1,
        m.field_served(f).owner[f] != m.owner[f],
    ensures
        !m.mid_line(m.owner[f]),
        m.field_served(f).owner[f] == m.other(f),
{
}

/// With nothing queued a frame carries null pairs and invalid padding only.
pub proof fn law_idle_frame_is_null(m: Mux)
    requires
        m.wf(),
        m.idle(),
    ensures
        m.frame_triples()[0].2 == 0x80 && m.frame_triples()[0].3 == 0x80,
        m.frame_triples()[1].2 == 0x80 && m.frame_triples()[1].3 == 0x80,
        forall|i: int|
            2 <= i < m.rate.triples() ==> #[trigger] m.frame_triples()[i] == (
                false,
                CcType::DtvccData,
                0u8,
                0u8,
            ),
        m.frame_done().idle(),
{
    assert(!m.busy(m.owner[0]) && !m.busy(m.other(0)));
    assert(m.field_done(0) == m);
    assert(!m.busy(m.owner[1]) && !m.busy(m.other(1)));
    assert(m.field_done(1) == m);
    lemma_idle_packs_nothing(m.cc708, m.next_service, 0, seq![0u8], 2 * (m.rate.triples() - 2));
    let done = m.frame_done();
    assert forall|i: int| 0 <= i < 4 implies !#[trigger] done.busy(i) by {
        assert(!m.busy(i));
    }
}

/// The caption channel has the same capacity at every rate: 600 triples a second,
/// which are 9600 bits of caption data.
pub proof fn law_capacity_is_fixed(rate: FrameRate)
    ensures
        rate.triples() * rate.nominal() == 600,
        rate.triples() * rate.nominal() * 16 == 9600,
{
}

} // verus!
