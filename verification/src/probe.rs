//! Black-box timing: when each video PES first arrives, and how long it took
//! from one log to another.
use std::collections::HashMap;
use vstd::prelude::*;
use vstd::slice::slice_subrange;

use crate::chars::{char_lists, fields, lines, split, text_lines, to_chars};
use crate::numbers::{parse_signed, parse_unsigned, signed_value, unsigned_value};
use crate::ts::{parse_pts, pts_bits, TS_PACKET};

verus! {

broadcast use vstd::std_specs::hash::group_hash_axioms;

/// Where the payload of a packet starts, the adaptation field passed over.
pub open spec fn pes_at(ts: Seq<u8>) -> int {
    if ((ts[3] >> 4) & 3) & 2 != 0 {
        5 + ts[4]
    } else {
        4
    }
}

/// The PTS of a packet that starts a video PES with one.
pub open spec fn packet_pts(ts: Seq<u8>) -> Option<int> {
    let p = pes_at(ts);
    if ts[0] != 0x47 || ts[1] & 0x40 == 0 || ((ts[3] >> 4) & 3) & 1 == 0 || p + 14 > TS_PACKET {
        None
    } else if ts[p] != 0 || ts[p + 1] != 0 || ts[p + 2] != 1 || ts[p + 3] & 0xF0 != 0xE0 || ts[p
        + 7] & 0x80 == 0 {
        None
    } else {
        Some(pts_bits(ts.subrange(p + 9, p + 14)))
    }
}

/// The PTS of every video PES that starts in the whole packets from `i` on.
pub open spec fn video_pts(buf: Seq<u8>, i: int) -> Seq<int>
    decreases buf.len() - i,
{
    if i + TS_PACKET > buf.len() {
        seq![]
    } else {
        let rest = video_pts(buf, i + TS_PACKET);
        match packet_pts(buf.subrange(i, i + TS_PACKET)) {
            Some(v) => seq![v] + rest,
            None => rest,
        }
    }
}

/// Timestamps as integers.
pub open spec fn pts_ints(v: Seq<i64>) -> Seq<int> {
    v.map_values(|p: i64| p as int)
}

fn start_pts(ts: &[u8]) -> (r: Option<i64>)
    requires
        ts@.len() == TS_PACKET,
    ensures
        r is Some == packet_pts(ts@) is Some,
        r matches Some(v) ==> v == packet_pts(ts@)->0,
{
    if ts[0] != 0x47 || ts[1] & 0x40 == 0 {
        return None;  // not synced or no payload_unit_start
    }
    let afc: u8 = (ts[3] >> 4) & 3;
    let p: usize = if afc & 2 != 0 { 5 + ts[4] as usize } else { 4 };
    if afc & 1 == 0 || p + 14 > TS_PACKET {
        return None;
    }
    if ts[p] != 0 || ts[p + 1] != 0 || ts[p + 2] != 1 || ts[p + 3] & 0xF0 != 0xE0 || ts[p + 7]
        & 0x80 == 0 {
        return None;
    }
    let bits = slice_subrange(ts, p + 9, p + 14);
    parse_pts(bits)
}

/// PTS (90 kHz, 33 bit) of every video PES that starts in this TS datagram,
/// appended to `out`.
pub fn video_pes_pts(buf: &[u8], out: &mut Vec<i64>)
    ensures
        pts_ints(final(out)@) == pts_ints(old(out)@) + video_pts(buf@, 0),
{
    let ghost all = pts_ints(out@) + video_pts(buf@, 0);
    let mut i: usize = 0;
    while buf.len() - i >= TS_PACKET
        invariant
            i <= buf@.len(),
            all == pts_ints(out@) + video_pts(buf@, i as int),
        decreases buf@.len() - i,
    {
        let ghost before = pts_ints(out@);
        let ghost rest = video_pts(buf@, i + TS_PACKET);
        let ts = slice_subrange(buf, i, i + TS_PACKET);
        if let Some(v) = start_pts(ts) {
            out.push(v);
            assert(pts_ints(out@) =~= before.push(v as int));
            assert(before + (seq![v as int] + rest) =~= before.push(v as int) + rest);
        }
        i = i + TS_PACKET;
    }
    assert(pts_ints(out@) + Seq::<int>::empty() =~= pts_ints(out@));
}

/// Arrival time and PTS of a log line.
pub open spec fn arrival_of(line: Seq<char>) -> Option<(i64, u64)> {
    let f = fields(line, ',');
    if f.len() < 2 {
        None
    } else {
        match (unsigned_value(f[0], 10), signed_value(f[1])) {
            (Some(t), Some(p)) => Some((p, t)),
            _ => None,
        }
    }
}

/// The first arrival of each PTS among a log's lines.
pub open spec fn arrivals(list: Seq<Seq<char>>) -> Map<i64, u64>
    decreases list.len(),
{
    if list.len() == 0 {
        Map::empty()
    } else {
        let head = arrivals(list.drop_last());
        match arrival_of(list.last()) {
            Some(a) => if head.contains_key(a.0) {
                head
            } else {
                head.insert(a.0, a.1)
            },
            None => head,
        }
    }
}

/// A log's lines behind its header.
pub open spec fn log_lines(text: Seq<char>) -> Seq<Seq<char>> {
    let all = text_lines(text);
    if all.len() == 0 {
        all
    } else {
        all.drop_first()
    }
}

fn parse_arrival(line: &Vec<char>) -> (r: Option<(i64, u64)>)
    ensures
        r == arrival_of(line@),
{
    let f = split(line.as_slice(), ',');
    let ghost all = char_lists(f@);
    if f.len() < 2 {
        return None;
    }
    assert(all[0] == f@[0]@ && all[1] == f@[1]@);
    match (parse_unsigned(f[0].as_slice(), 10), parse_signed(f[1].as_slice())) {
        (Some(t), Some(p)) => Some((p, t)),
        _ => None,
    }
}

/// When each PTS of a log first arrived.
pub struct Arrivals {
    /// Every PTS once, in the order of arrival.
    order: Vec<i64>,
    at: HashMap<i64, u64>,
}

impl View for Arrivals {
    type V = Map<i64, u64>;

    closed spec fn view(&self) -> Map<i64, u64> {
        self.at@
    }
}

impl Arrivals {
    /// The list holds exactly the timestamps that arrived, each once.
    pub closed spec fn wf(&self) -> bool {
        &&& forall|k: int| 0 <= k < self.order@.len() ==> self.at@.contains_key(#[trigger] self.order@[k])
        &&& forall|p: i64| #[trigger] self.at@.contains_key(p) ==> self.order@.contains(p)
        &&& forall|i: int, j: int|
            #![trigger self.order@[i], self.order@[j]]
            0 <= i < j < self.order@.len() ==> self.order@[i] != self.order@[j]
    }

    /// How many timestamps arrived.
    pub fn count(&self) -> (r: usize)
        requires
            self.wf(),
        ensures
            r == self@.dom().len(),
    {
        proof {
            lemma_distinct_len(self.order@, self.at@.dom());
        }
        self.order.len()
    }

    /// Reads a log `wall_ns,pts`: the first arrival of each PTS.
    pub fn load(text: &str) -> (r: Self)
        ensures
            r.wf(),
            r@ == arrivals(log_lines(text@)),
    {
        let all = lines(to_chars(text).as_slice());
        let ghost list = char_lists(all@);
        let ghost data = log_lines(text@);
        let mut r = Arrivals { order: Vec::new(), at: HashMap::new() };
        let mut i: usize = 1;
        assert(data.take(0) =~= seq![]);
        assert(r.at@ =~= arrivals(data.take(0)));
        while i < all.len()
            invariant
                1 <= i,
                all@.len() == 0 ==> i == 1,
                all@.len() > 0 ==> i <= all@.len(),
                list == char_lists(all@),
                list == text_lines(text@),
                data == log_lines(text@),
                r.wf(),
                r.at@ == arrivals(data.take(i - 1)),
            decreases all@.len() - i,
        {
            let ghost upto = data.take(i as int);
            assert(upto.drop_last() =~= data.take(i - 1));
            assert(upto.last() == all@[i as int]@);
            if let Some((p, t)) = parse_arrival(&all[i]) {
                if !r.at.contains_key(&p) {
                    let ghost order = r.order@;
                    let ghost before = r.at@;
                    r.order.push(p);
                    r.at.insert(p, t);
                    proof {
                        assert(r.order@[order.len() as int] == p);
                        assert forall|q: i64| #[trigger]
                            r.at@.contains_key(q) implies r.order@.contains(q) by {
                            if q != p {
                                assert(before.contains_key(q));
                                let k = choose|k: int| 0 <= k < order.len() && order[k] == q;
                                assert(r.order@[k] == q);
                            }
                        }
                    }
                }
            }
            i = i + 1;
        }
        assert(list.len() == all@.len());
        assert(data.len() == (if list.len() == 0 {
            0
        } else {
            list.len() - 1
        }));
        assert(data.take(i - 1) =~= data);
        r
    }

    /// How long each PTS took from this log to `later`, in nanoseconds, by
    /// ascending PTS; those that are not in both are left out.
    pub fn join(&self, later: &Arrivals) -> (r: Vec<(i64, i128)>)
        requires
            self.wf(),
            later.wf(),
        ensures
            ascending(r@),
            forall|k: int|
                0 <= k < r@.len() ==> {
                    let p = (#[trigger] r@[k]).0;
                    &&& self@.contains_key(p) && later@.contains_key(p)
                    &&& r@[k].1 == later@[p] - self@[p]
                },
            forall|p: i64|
                #![trigger self@.contains_key(p)]
                self@.contains_key(p) && later@.contains_key(p) ==> has_pts(r@, p),
    {
        let mut r: Vec<(i64, i128)> = Vec::new();
        for i in 0..self.order.len()
            invariant
                self.wf(),
                later.wf(),
                ascending(r@),
                forall|k: int|
                    0 <= k < r@.len() ==> self.joins(*later, i as int, #[trigger] r@[k]),
                forall|m: int|
                    #![trigger self.order@[m]]
                    0 <= m < i && later@.contains_key(self.order@[m]) ==> has_pts(
                        r@,
                        self.order@[m],
                    ),
        {
            let p: i64 = self.order[i];
            assert(self.at@.contains_key(self.order@[i as int]));
            let ghost before = r@;
            proof {
                assert forall|k: int| 0 <= k < before.len() implies (#[trigger] before[k]).0 != p
                    && self.joins(*later, i + 1, before[k]) by {
                    assert(self.joins(*later, i as int, before[k]));
                    let m = choose|m: int| 0 <= m < i && #[trigger] self.order@[m] == before[k].0;
                    assert(self.order@[m] != self.order@[i as int]);
                }
            }
            match (later.at.get(&p), self.at.get(&p)) {
                (Some(b), Some(a)) => {
                    let took: i128 = *b as i128 - *a as i128;
                    let at: usize = insert_ascending(&mut r, p, took);
                    proof {
                        assert(self.order@[i as int] == p);
                        assert(self.joins(*later, i + 1, (p, took)));
                        assert forall|k: int| 0 <= k < r@.len() implies self.joins(
                            *later,
                            i + 1,
                            #[trigger] r@[k],
                        ) by {
                            if k != at {
                                let j = if k < at { k } else { k - 1 };
                                assert(r@[k] == before[j]);
                            }
                        }
                        assert forall|m: int|
                            #![trigger self.order@[m]]
                            0 <= m < i + 1 && later@.contains_key(self.order@[m]) implies has_pts(
                            r@,
                            self.order@[m],
                        ) by {
                            if m < i {
                                let k = choose|k: int|
                                    0 <= k < before.len() && (#[trigger] before[k]).0
                                        == self.order@[m];
                                let j = if k < at { k } else { k + 1 };
                                assert(r@[j] == before[k]);
                            } else {
                                assert(r@[at as int].0 == p);
                            }
                        }
                    }
                },
                _ => {},
            }
        }
        proof {
            assert forall|k: int| 0 <= k < r@.len() implies {
                let p = (#[trigger] r@[k]).0;
                &&& self@.contains_key(p) && later@.contains_key(p)
                &&& r@[k].1 == later@[p] - self@[p]
            } by {
                assert(self.joins(*later, self.order@.len() as int, r@[k]));
            }
            assert forall|p: i64|
                #![trigger self@.contains_key(p)]
                self@.contains_key(p) && later@.contains_key(p) implies has_pts(r@, p) by {
                assert(self.order@.contains(p));
                let m = choose|m: int| 0 <= m < self.order@.len() && self.order@[m] == p;
                assert(self.order@[m] == p);
            }
        }
        r
    }

    /// The entry is the time that one of the first `n` timestamps took.
    closed spec fn joins(&self, later: Arrivals, n: int, e: (i64, i128)) -> bool {
        &&& self@.contains_key(e.0) && later@.contains_key(e.0)
        &&& e.1 == later@[e.0] - self@[e.0]
        &&& exists|m: int| 0 <= m < n && #[trigger] self.order@[m] == e.0
    }
}

/// The list is sorted by PTS, each at most once.
pub open spec fn ascending(r: Seq<(i64, i128)>) -> bool {
    forall|i: int, j: int|
        #![trigger r[i], r[j]]
        0 <= i < j < r.len() ==> r[i].0 < r[j].0
}

/// The list has an entry for the PTS.
pub open spec fn has_pts(r: Seq<(i64, i128)>, p: i64) -> bool {
    exists|k: int| 0 <= k < r.len() && (#[trigger] r[k]).0 == p
}

/// Puts an entry in its place.
fn insert_ascending(r: &mut Vec<(i64, i128)>, p: i64, took: i128) -> (at: usize)
    requires
        ascending(old(r)@),
        forall|k: int| 0 <= k < old(r)@.len() ==> (#[trigger] old(r)@[k]).0 != p,
    ensures
        at <= old(r)@.len(),
        final(r)@ == old(r)@.insert(at as int, (p, took)),
        ascending(final(r)@),
{
    let ghost before = r@;
    let mut at: usize = r.len();
    while at > 0 && r[at - 1].0 > p
        invariant
            at <= r@.len(),
            r@ == before,
            forall|k: int| at <= k < r@.len() ==> (#[trigger] r@[k]).0 > p,
        decreases at,
    {
        at = at - 1;
    }
    proof {
        assert forall|k: int| 0 <= k < at implies (#[trigger] before[k]).0 < p by {
            assert(before[at - 1].0 != p);
            if k < at - 1 {
                assert(before[k].0 < before[at - 1].0);
            }
        }
    }
    r.insert(at, (p, took));
    proof {
        assert forall|i: int, j: int|
            #![trigger r@[i], r@[j]]
            0 <= i < j < r@.len() implies r@[i].0 < r@[j].0 by {
            let x = if i < at { i } else { i - 1 };
            let y = if j < at { j } else { j - 1 };
            if i != at && j != at {
                assert(before[x].0 < before[y].0);
            }
        }
    }
    at
}

proof fn lemma_distinct_len(order: Seq<i64>, dom: Set<i64>)
    requires
        forall|k: int| 0 <= k < order.len() ==> dom.contains(#[trigger] order[k]),
        forall|p: i64| #[trigger] dom.contains(p) ==> order.contains(p),
        forall|i: int, j: int|
            #![trigger order[i], order[j]]
            0 <= i < j < order.len() ==> order[i] != order[j],
    ensures
        dom.len() == order.len(),
{
    assert(order.no_duplicates());
    assert(order.to_set() =~= dom);
    order.unique_seq_to_set();
}

} // verus!
