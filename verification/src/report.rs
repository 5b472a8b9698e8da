//! Matches frames between two taps, before and after a system, by content or by
//! timestamp.
//!
//! 1. By content: a frame's `tail_hash` (hash of the last 128 payload bytes of its
//!    PES) survives pass-through even if the system rewrites PTS or inserts SEI
//!    NAL units ahead of the slices. For duplicate hashes the input frame with the
//!    latest wallclock not after the output frame is used.
//! 2. The PTS offset is the most common `(out_pts - in_pts) mod 2^33` over the
//!    content-matched pairs. Pairs that disagree with it are counted.
//! 3. If fewer than half the output frames match by content (the system changed
//!    the tail bytes, e.g. re-encoding), frames are matched by PTS instead, using
//!    the offset given, else the offset from step 2 if there is one, else 0.
use std::collections::HashMap;
use vstd::prelude::*;

use crate::chars::{char_lists, fields, lines, split, starts_with, text_lines, to_chars};
use crate::numbers::{parse_signed, parse_unsigned, signed_value, unsigned_value};
use crate::ts::PTS_WRAP;

verus! {

broadcast use vstd::std_specs::hash::group_hash_axioms;

#[derive(Debug, Clone, Copy, PartialEq, Eq)]
pub struct Row {
    pub wall: i64,
    pub pts: Option<i64>,
    pub seq: u64,
    pub hash: u64,
}

#[derive(Clone, Copy, PartialEq, Eq, Debug, Structural)]
pub enum MatchMode {
    Auto,
    Hash,
    Pts,
}

/// The row that the fields of a line stand for: wallclock, PTS (which may be
/// missing), sequence number, and the hash in hexadecimal (0 if missing).
pub open spec fn row_of(f: Seq<Seq<char>>) -> Option<Row> {
    if f.len() < 3 {
        None
    } else {
        match (signed_value(f[0]), unsigned_value(f[2], 10)) {
            (Some(wall), Some(seq)) => Some(
                Row {
                    wall,
                    pts: signed_value(f[1]),
                    seq,
                    hash: if f.len() > 3 {
                        match unsigned_value(f[3], 16) {
                            Some(h) => h,
                            None => 0,
                        }
                    } else {
                        0
                    },
                },
            ),
            _ => None,
        }
    }
}

/// The rows of a list of lines, those that are none left out.
pub open spec fn rows_of(list: Seq<Seq<char>>) -> Seq<Row>
    decreases list.len(),
{
    if list.len() == 0 {
        seq![]
    } else {
        let head = rows_of(list.drop_last());
        match row_of(fields(list.last(), ',')) {
            Some(row) => head.push(row),
            None => head,
        }
    }
}

/// The lines behind the header, if there is one.
pub open spec fn data_lines(list: Seq<Seq<char>>) -> Seq<Seq<char>> {
    if list.len() > 0 && "wallclock_ns"@.is_prefix_of(list[0]) {
        list.drop_first()
    } else {
        list
    }
}

fn parse_row(line: &Vec<char>) -> (r: Option<Row>)
    ensures
        r == row_of(fields(line@, ',')),
{
    let f = split(line.as_slice(), ',');
    let ghost all = char_lists(f@);
    assert(all == fields(line@, ','));
    if f.len() < 3 {
        return None;
    }
    assert(all[0] == f@[0]@ && all[1] == f@[1]@ && all[2] == f@[2]@);
    let wall = parse_signed(f[0].as_slice());
    let seq = parse_unsigned(f[2].as_slice(), 10);
    match (wall, seq) {
        (Some(wall), Some(seq)) => {
            let pts = parse_signed(f[1].as_slice());
            let mut hash: u64 = 0;
            if f.len() > 3 {
                assert(all[3] == f@[3]@);
                if let Some(h) = parse_unsigned(f[3].as_slice(), 16) {
                    hash = h;
                }
            }
            Some(Row { wall, pts, seq, hash })
        },
        _ => None,
    }
}

/// Reads a tap's CSV text: its rows, and the number of lines that are none.
pub fn load_rows(text: &str) -> (r: (Vec<Row>, usize))
    ensures
        r.0@ == rows_of(data_lines(text_lines(text@))),
        r.1 == data_lines(text_lines(text@)).len() - r.0@.len(),
{
    let all = lines(to_chars(text).as_slice());
    let ghost list = char_lists(all@);
    let header = to_chars("wallclock_ns");
    let mut from: usize = 0;
    assert(all.len() > 0 ==> list[0] == all@[0]@);
    if all.len() > 0 && starts_with(all[0].as_slice(), header.as_slice()) {
        from = 1;
    }
    let ghost data = data_lines(list);
    assert(data =~= list.skip(from as int));
    let mut rows: Vec<Row> = Vec::new();
    let mut bad: usize = 0;
    let mut i: usize = from;
    assert(data.take(0) =~= seq![]);
    while i < all.len()
        invariant
            from <= i <= all.len(),
            list == char_lists(all@),
            data == list.skip(from as int),
            rows@ == rows_of(data.take(i - from)),
            bad + rows@.len() == i - from,
        decreases all.len() - i,
    {
        let ghost upto = data.take(i + 1 - from);
        assert(upto.drop_last() =~= data.take(i - from));
        assert(upto.last() == all@[i as int]@);
        match parse_row(&all[i]) {
            Some(row) => rows.push(row),
            None => {
                bad = bad + 1;
            },
        }
        i = i + 1;
    }
    assert(data.take(i - from) =~= data);
    (rows, bad)
}

/// Signed difference a - b modulo 2^33, in [-2^32, 2^32).
pub open spec fn diff33(a: i64, b: i64) -> int {
    let d = (a - b) % (PTS_WRAP as int);
    if d >= PTS_WRAP / 2 {
        d - PTS_WRAP
    } else {
        d
    }
}

/// A value modulo 2^33.
fn mod33(x: i64) -> (r: i64)
    ensures
        r == (x as int) % (PTS_WRAP as int),
        0 <= r < PTS_WRAP,
{
    match x.checked_rem_euclid(PTS_WRAP) {
        Some(r) => r,
        None => 0,
    }
}

/// Signed difference a - b modulo 2^33, in [-2^32, 2^32).
pub fn pts_diff(a: i64, b: i64) -> (r: i64)
    ensures
        r == diff33(a, b),
        -PTS_WRAP / 2 <= r < PTS_WRAP / 2,
        (r - (a - b)) % (PTS_WRAP as int) == 0,
{
    let w: i64 = a.wrapping_sub(b);
    let d: i64 = mod33(w);
    assert((w as int) % (PTS_WRAP as int) == (a - b) % (PTS_WRAP as int));
    if d >= PTS_WRAP / 2 {
        d - PTS_WRAP
    } else {
        d
    }
}

/// The rows among the first `n` that `key` selects, by ascending index.
pub open spec fn selected(rows: Seq<Row>, n: nat, key: spec_fn(Row) -> bool) -> Seq<int>
    decreases n,
{
    if n == 0 {
        seq![]
    } else {
        let head = selected(rows, (n - 1) as nat, key);
        if key(rows[n - 1]) {
            head.push(n - 1)
        } else {
            head
        }
    }
}

/// The latest of the candidates not after `wall`; of equally late ones the last.
pub open spec fn latest(cands: Seq<int>, rows: Seq<Row>, wall: i64) -> Option<int>
    decreases cands.len(),
{
    if cands.len() == 0 {
        None
    } else {
        let head = latest(cands.drop_last(), rows, wall);
        let c = cands.last();
        if rows[c].wall <= wall && (head matches Some(h) ==> rows[h].wall <= rows[c].wall) {
            Some(c)
        } else {
            head
        }
    }
}

/// The earliest of the candidates; of equally early ones the first.
pub open spec fn earliest(cands: Seq<int>, rows: Seq<Row>) -> Option<int>
    decreases cands.len(),
{
    if cands.len() == 0 {
        None
    } else {
        let head = earliest(cands.drop_last(), rows);
        let c = cands.last();
        if head matches Some(h) ==> rows[c].wall < rows[h].wall {
            Some(c)
        } else {
            head
        }
    }
}

/// The input frame that an output frame of `wall` goes with: the latest input
/// not after it, else the earliest one.
pub open spec fn picked(cands: Seq<int>, rows: Seq<Row>, wall: i64) -> Option<int> {
    match latest(cands, rows, wall) {
        Some(i) => Some(i),
        None => earliest(cands, rows),
    }
}

/// Indices as integers.
pub open spec fn indices(v: Seq<usize>) -> Seq<int> {
    v.map_values(|i: usize| i as int)
}

fn pick(cands: &Vec<usize>, inp: &[Row], out_wall: i64) -> (r: Option<usize>)
    requires
        forall|k: int| 0 <= k < cands@.len() ==> (#[trigger] cands@[k]) < inp@.len(),
    ensures
        r is Some == picked(indices(cands@), inp@, out_wall) is Some,
        r matches Some(i) ==> i == picked(indices(cands@), inp@, out_wall)->0 && i < inp@.len(),
{
    // Latest input not after the output; else the earliest one.
    let ghost all = indices(cands@);
    let mut late: Option<usize> = None;
    let mut early: Option<usize> = None;
    assert(all.take(0) =~= seq![]);
    for k in 0..cands.len()
        invariant
            all == indices(cands@),
            forall|k: int| 0 <= k < cands@.len() ==> (#[trigger] cands@[k]) < inp@.len(),
            late is Some == latest(all.take(k as int), inp@, out_wall) is Some,
            late matches Some(i) ==> i < inp@.len() && i == latest(
                all.take(k as int),
                inp@,
                out_wall,
            )->0,
            early is Some == earliest(all.take(k as int), inp@) is Some,
            early matches Some(i) ==> i < inp@.len() && i == earliest(
                all.take(k as int),
                inp@,
            )->0,
    {
        let c: usize = cands[k];
        assert(all.take(k + 1).drop_last() =~= all.take(k as int));
        assert(all.take(k + 1).last() == c);
        let wall: i64 = inp[c].wall;
        let later = match late {
            Some(h) => inp[h].wall <= wall,
            None => true,
        };
        if wall <= out_wall && later {
            late = Some(c);
        }
        let earlier = match early {
            Some(h) => wall < inp[h].wall,
            None => true,
        };
        if earlier {
            early = Some(c);
        }
    }
    assert(all.take(all.len() as int) =~= all);
    match late {
        Some(i) => Some(i),
        None => early,
    }
}

/// The pairs of the first `n` output frames with the input frame that `partner`
/// gives, if any.
pub open spec fn paired(
    out: Seq<Row>,
    n: nat,
    partner: spec_fn(Row) -> Option<int>,
) -> Seq<(int, int)>
    decreases n,
{
    if n == 0 {
        seq![]
    } else {
        let head = paired(out, (n - 1) as nat, partner);
        match partner(out[n - 1]) {
            Some(i) => head.push((i, n - 1)),
            None => head,
        }
    }
}

/// The input frame with the same content as an output frame. A hash of zero
/// stands for no content.
pub open spec fn hash_partner(inp: Seq<Row>, row: Row) -> Option<int> {
    if row.hash == 0 {
        None
    } else {
        picked(selected(inp, inp.len(), |r: Row| r.hash == row.hash), inp, row.wall)
    }
}

/// The pairs of frames with the same content.
pub open spec fn hash_pairs(inp: Seq<Row>, out: Seq<Row>) -> Seq<(int, int)> {
    paired(out, out.len(), |row: Row| hash_partner(inp, row))
}

/// The row has a timestamp that is `key` modulo 2^33.
pub open spec fn pts_is(row: Row, key: int) -> bool {
    row.pts matches Some(p) && (p as int) % (PTS_WRAP as int) == key
}

/// The input frame whose timestamp lies `offset` before that of an output frame,
/// modulo 2^33.
pub open spec fn pts_partner(inp: Seq<Row>, row: Row, offset: i64) -> Option<int> {
    match row.pts {
        Some(p) => {
            let key = (p - offset) % (PTS_WRAP as int);
            picked(selected(inp, inp.len(), |r: Row| pts_is(r, key)), inp, row.wall)
        },
        None => None,
    }
}

/// The pairs of frames `offset` apart in PTS.
pub open spec fn pts_pairs(inp: Seq<Row>, out: Seq<Row>, offset: i64) -> Seq<(int, int)> {
    paired(out, out.len(), |row: Row| pts_partner(inp, row, offset))
}

/// Pairs of indices as integers.
pub open spec fn pair_ints(v: Seq<(usize, usize)>) -> Seq<(int, int)> {
    v.map_values(|p: (usize, usize)| (p.0 as int, p.1 as int))
}

proof fn lemma_selected_bounds(rows: Seq<Row>, n: nat, key: spec_fn(Row) -> bool)
    requires
        n <= rows.len(),
    ensures
        forall|k: int|
            0 <= k < selected(rows, n, key).len() ==> 0 <= #[trigger] selected(rows, n, key)[k] < n
                && key(rows[selected(rows, n, key)[k]]),
    decreases n,
{
    if n > 0 {
        let head = selected(rows, (n - 1) as nat, key);
        lemma_selected_bounds(rows, (n - 1) as nat, key);
        let all = selected(rows, n, key);
        assert forall|k: int| 0 <= k < all.len() implies 0 <= #[trigger] all[k] < n && key(
            rows[all[k]],
        ) by {
            if k < head.len() {
                assert(all[k] == head[k]);
            }
        }
    }
}

/// The indices of the rows by some key: the list of each key is the rows with it.
spec fn indexes<K>(
    index: Map<K, Vec<usize>>,
    rows: Seq<Row>,
    n: nat,
    has: spec_fn(Row, K) -> bool,
) -> bool {
    &&& forall|key: K| #[trigger]
        index.contains_key(key) ==> indices(index[key]@) == selected(
            rows,
            n,
            |r: Row| has(r, key),
        )
    &&& forall|key: K|
        !#[trigger] index.contains_key(key) ==> selected(rows, n, |r: Row| has(r, key)).len() == 0
}

spec fn has_hash(r: Row, key: u64) -> bool {
    r.hash == key && key != 0
}

proof fn lemma_selected_same(
    rows: Seq<Row>,
    n: nat,
    a: spec_fn(Row) -> bool,
    b: spec_fn(Row) -> bool,
)
    requires
        forall|r: Row| #[trigger] a(r) == b(r),
    ensures
        selected(rows, n, a) == selected(rows, n, b),
    decreases n,
{
    if n > 0 {
        lemma_selected_same(rows, (n - 1) as nat, a, b);
        assert(a(rows[n - 1]) == b(rows[n - 1]));
    }
}

fn match_hash(inp: &[Row], out: &[Row]) -> (r: Vec<(usize, usize)>)
    ensures
        pair_ints(r@) == hash_pairs(inp@, out@),
        r@.len() <= out@.len(),
        forall|k: int|
            0 <= k < r@.len() ==> (#[trigger] r@[k]).0 < inp@.len() && r@[k].1 < out@.len(),
{
    let ghost has = |r: Row, key: u64| has_hash(r, key);
    let mut by_hash: HashMap<u64, Vec<usize>> = HashMap::new();
    for i in 0..inp.len()
        invariant
            has == (|r: Row, key: u64| has_hash(r, key)),
            indexes(by_hash@, inp@, i as nat, has),
    {
        let key: u64 = inp[i].hash;
        let ghost before = by_hash@;
        if key != 0 {
            let mut list = match by_hash.remove(&key) {
                Some(v) => v,
                None => Vec::new(),
            };
            let ghost was = list@;
            proof {
                if before.contains_key(key) {
                    assert(was == before[key]@);
                } else {
                    assert(indices(was) =~= selected(inp@, i as nat, |r: Row| has(r, key)));
                }
            }
            list.push(i);
            assert(indices(list@) =~= indices(was).push(i as int));
            by_hash.insert(key, list);
            assert forall|k: u64| #[trigger] by_hash@.contains_key(k) implies indices(
                by_hash@[k]@,
            ) == selected(inp@, (i + 1) as nat, |r: Row| has(r, k)) by {
                if k != key {
                    assert(before.contains_key(k));
                    assert(by_hash@[k] == before[k]);
                }
            }
            assert forall|k: u64| !#[trigger] by_hash@.contains_key(k) implies selected(
                inp@,
                (i + 1) as nat,
                |r: Row| has(r, k),
            ).len() == 0 by {
                assert(!before.contains_key(k));
            }
        } else {
            assert forall|k: u64| #[trigger] by_hash@.contains_key(k) implies indices(
                by_hash@[k]@,
            ) == selected(inp@, (i + 1) as nat, |r: Row| has(r, k)) by {
                assert(before.contains_key(k));
            }
            assert forall|k: u64| !#[trigger] by_hash@.contains_key(k) implies selected(
                inp@,
                (i + 1) as nat,
                |r: Row| has(r, k),
            ).len() == 0 by {
                assert(!before.contains_key(k));
            }
        }
    }
    let ghost partner = |row: Row| hash_partner(inp@, row);
    let mut pairs: Vec<(usize, usize)> = Vec::new();
    assert(pair_ints(pairs@) =~= seq![]);
    for j in 0..out.len()
        invariant
            has == (|r: Row, key: u64| has_hash(r, key)),
            partner == (|row: Row| hash_partner(inp@, row)),
            indexes(by_hash@, inp@, inp@.len(), has),
            pair_ints(pairs@) == paired(out@, j as nat, partner),
            pairs@.len() <= j,
            forall|k: int|
                0 <= k < pairs@.len() ==> (#[trigger] pairs@[k]).0 < inp@.len() && pairs@[k].1
                    < out@.len(),
    {
        let row = out[j];
        let ghost before = pair_ints(pairs@);
        if row.hash != 0 {
            let ghost a = |r: Row| r.hash == row.hash;
            let ghost b = |r: Row| has(r, row.hash);
            proof {
                lemma_selected_same(inp@, inp@.len(), a, b);
                lemma_selected_bounds(inp@, inp@.len(), a);
            }
            let ghost want = selected(inp@, inp@.len(), a);
            match by_hash.get(&row.hash) {
                Some(c) => {
                    assert(indices(c@) == want);
                    assert forall|k: int| 0 <= k < c@.len() implies (#[trigger] c@[k])
                        < inp@.len() by {
                        assert(want[k] == c@[k]);
                    }
                    if let Some(i) = pick(c, inp, row.wall) {
                        pairs.push((i, j));
                        assert(pair_ints(pairs@) =~= before.push((i as int, j as int)));
                    }
                },
                None => {
                    assert(want.len() == 0);
                },
            }
        }
    }
    pairs
}

fn match_pts(inp: &[Row], out: &[Row], offset: i64) -> (r: Vec<(usize, usize)>)
    ensures
        pair_ints(r@) == pts_pairs(inp@, out@, offset),
        r@.len() <= out@.len(),
        forall|k: int|
            0 <= k < r@.len() ==> (#[trigger] r@[k]).0 < inp@.len() && r@[k].1 < out@.len(),
{
    let ghost has = |r: Row, key: i64| pts_is(r, key as int);
    let mut by_pts: HashMap<i64, Vec<usize>> = HashMap::new();
    for i in 0..inp.len()
        invariant
            has == (|r: Row, key: i64| pts_is(r, key as int)),
            indexes(by_pts@, inp@, i as nat, has),
    {
        let ghost before = by_pts@;
        if let Some(p) = inp[i].pts {
            let key: i64 = mod33(p);
            let mut list = match by_pts.remove(&key) {
                Some(v) => v,
                None => Vec::new(),
            };
            let ghost was = list@;
            proof {
                if before.contains_key(key) {
                    assert(was == before[key]@);
                } else {
                    assert(indices(was) =~= selected(inp@, i as nat, |r: Row| has(r, key)));
                }
            }
            list.push(i);
            assert(indices(list@) =~= indices(was).push(i as int));
            by_pts.insert(key, list);
            assert forall|k: i64| #[trigger] by_pts@.contains_key(k) implies indices(by_pts@[k]@)
                == selected(inp@, (i + 1) as nat, |r: Row| has(r, k)) by {
                if k != key {
                    assert(before.contains_key(k));
                    assert(by_pts@[k] == before[k]);
                }
            }
            assert forall|k: i64| !#[trigger] by_pts@.contains_key(k) implies selected(
                inp@,
                (i + 1) as nat,
                |r: Row| has(r, k),
            ).len() == 0 by {
                assert(!before.contains_key(k));
            }
        } else {
            assert forall|k: i64| #[trigger] by_pts@.contains_key(k) implies indices(by_pts@[k]@)
                == selected(inp@, (i + 1) as nat, |r: Row| has(r, k)) by {
                assert(before.contains_key(k));
            }
            assert forall|k: i64| !#[trigger] by_pts@.contains_key(k) implies selected(
                inp@,
                (i + 1) as nat,
                |r: Row| has(r, k),
            ).len() == 0 by {
                assert(!before.contains_key(k));
            }
        }
    }
    let ghost partner = |row: Row| pts_partner(inp@, row, offset);
    let mut pairs: Vec<(usize, usize)> = Vec::new();
    assert(pair_ints(pairs@) =~= seq![]);
    for j in 0..out.len()
        invariant
            has == (|r: Row, key: i64| pts_is(r, key as int)),
            partner == (|row: Row| pts_partner(inp@, row, offset)),
            indexes(by_pts@, inp@, inp@.len(), has),
            pair_ints(pairs@) == paired(out@, j as nat, partner),
            pairs@.len() <= j,
            forall|k: int|
                0 <= k < pairs@.len() ==> (#[trigger] pairs@[k]).0 < inp@.len() && pairs@[k].1
                    < out@.len(),
    {
        let row = out[j];
        let ghost before = pair_ints(pairs@);
        if let Some(p) = row.pts {
            let key: i64 = mod33(p.wrapping_sub(offset));
            assert(key == (p - offset) % (PTS_WRAP as int));
            let ghost exact = (p - offset) % (PTS_WRAP as int);
            let ghost a = |r: Row| pts_is(r, exact);
            let ghost b = |r: Row| has(r, key);
            proof {
                lemma_selected_same(inp@, inp@.len(), a, b);
                lemma_selected_bounds(inp@, inp@.len(), a);
            }
            let ghost want = selected(inp@, inp@.len(), a);
            match by_pts.get(&key) {
                Some(c) => {
                    assert(indices(c@) == want);
                    assert forall|k: int| 0 <= k < c@.len() implies (#[trigger] c@[k])
                        < inp@.len() by {
                        assert(want[k] == c@[k]);
                    }
                    if let Some(i) = pick(c, inp, row.wall) {
                        pairs.push((i, j));
                        assert(pair_ints(pairs@) =~= before.push((i as int, j as int)));
                    }
                },
                None => {
                    assert(want.len() == 0);
                },
            }
        }
    }
    pairs
}

/// The PTS differences, output minus input, of the pairs in which both frames
/// have a timestamp.
pub open spec fn pair_diffs(inp: Seq<Row>, out: Seq<Row>, pairs: Seq<(int, int)>) -> Seq<int>
    decreases pairs.len(),
{
    if pairs.len() == 0 {
        seq![]
    } else {
        let head = pair_diffs(inp, out, pairs.drop_last());
        match (out[pairs.last().1].pts, inp[pairs.last().0].pts) {
            (Some(a), Some(b)) => head.push(diff33(a, b)),
            _ => head,
        }
    }
}

/// How often `d` occurs.
pub open spec fn occurrences(s: Seq<int>, d: int) -> nat
    decreases s.len(),
{
    if s.len() == 0 {
        0
    } else {
        occurrences(s.drop_last(), d) + (if s.last() == d {
            1nat
        } else {
            0
        })
    }
}

/// The distance from zero.
pub open spec fn magnitude(d: int) -> int {
    if d < 0 {
        -d
    } else {
        d
    }
}

/// `d` is a most common difference, and of those one nearest to zero.
pub open spec fn most_common(diffs: Seq<int>, d: int) -> bool {
    &&& diffs.contains(d)
    &&& forall|e: int| #[trigger]
        diffs.contains(e) ==> occurrences(diffs, e) < occurrences(diffs, d) || (occurrences(
            diffs,
            e,
        ) == occurrences(diffs, d) && magnitude(d) <= magnitude(e))
}

/// Differences as integers.
pub open spec fn diff_ints(v: Seq<i64>) -> Seq<int> {
    v.map_values(|d: i64| d as int)
}

fn collect_diffs(inp: &[Row], out: &[Row], pairs: &Vec<(usize, usize)>) -> (r: Vec<i64>)
    requires
        forall|k: int|
            0 <= k < pairs@.len() ==> (#[trigger] pairs@[k]).0 < inp@.len() && pairs@[k].1
                < out@.len(),
    ensures
        diff_ints(r@) == pair_diffs(inp@, out@, pair_ints(pairs@)),
        forall|k: int| 0 <= k < r@.len() ==> -PTS_WRAP <= #[trigger] r@[k] <= PTS_WRAP,
        r@.len() <= pairs@.len(),
{
    let ghost all = pair_ints(pairs@);
    let mut r: Vec<i64> = Vec::new();
    assert(diff_ints(r@) =~= pair_diffs(inp@, out@, all.take(0)));
    for k in 0..pairs.len()
        invariant
            all == pair_ints(pairs@),
            forall|k: int|
                0 <= k < pairs@.len() ==> (#[trigger] pairs@[k]).0 < inp@.len() && pairs@[k].1
                    < out@.len(),
            diff_ints(r@) == pair_diffs(inp@, out@, all.take(k as int)),
            forall|k: int| 0 <= k < r@.len() ==> -PTS_WRAP <= #[trigger] r@[k] <= PTS_WRAP,
            r@.len() <= k,
    {
        let (i, j): (usize, usize) = pairs[k];
        assert(pairs@[k as int].0 < inp@.len());
        assert(all.take(k + 1).drop_last() =~= all.take(k as int));
        assert(all.take(k + 1).last() == (i as int, j as int));
        let ghost before = diff_ints(r@);
        if let (Some(a), Some(b)) = (out[j].pts, inp[i].pts) {
            let d: i64 = pts_diff(a, b);
            r.push(d);
            assert(diff_ints(r@) =~= before.push(d as int));
        }
    }
    assert(all.take(all.len() as int) =~= all);
    r
}

proof fn lemma_occurs(s: Seq<int>, d: int)
    ensures
        occurrences(s, d) <= s.len(),
        occurrences(s, d) > 0 <==> s.contains(d),
    decreases s.len(),
{
    if s.len() > 0 {
        let init = s.drop_last();
        lemma_occurs(init, d);
        if init.contains(d) {
            let k = choose|k: int| 0 <= k < init.len() && init[k] == d;
            assert(s[k] == d);
        }
        if s.contains(d) {
            let k = choose|k: int| 0 <= k < s.len() && s[k] == d;
            if k < init.len() {
                assert(init[k] == d);
            }
        }
        if s.last() == d {
            assert(s[s.len() - 1] == d);
        }
    }
}

fn count_diffs(diffs: &Vec<i64>) -> (r: HashMap<i64, usize>)
    ensures
        forall|d: i64|
            #![trigger r@.contains_key(d)]
            r@.contains_key(d) <==> diff_ints(diffs@).contains(d as int),
        forall|d: i64|
            #![trigger r@[d]]
            r@.contains_key(d) ==> r@[d] == occurrences(diff_ints(diffs@), d as int),
{
    let ghost all = diff_ints(diffs@);
    let mut counts: HashMap<i64, usize> = HashMap::new();
    for k in 0..diffs.len()
        invariant
            all == diff_ints(diffs@),
            forall|d: i64|
                #![trigger counts@.contains_key(d)]
                counts@.contains_key(d) <==> occurrences(all.take(k as int), d as int) > 0,
            forall|d: i64|
                #![trigger counts@[d]]
                counts@.contains_key(d) ==> counts@[d] == occurrences(
                    all.take(k as int),
                    d as int,
                ),
    {
        let d: i64 = diffs[k];
        let ghost upto = all.take(k + 1);
        assert(upto.drop_last() =~= all.take(k as int));
        assert(upto.last() == d);
        proof {
            lemma_occurs(all.take(k as int), d as int);
        }
        let ghost before = counts@;
        let n: usize = match counts.remove(&d) {
            Some(n) => n,
            None => 0,
        };
        assert(n == occurrences(all.take(k as int), d as int));
        counts.insert(d, n + 1);
        assert forall|e: i64|
            #![trigger counts@.contains_key(e)]
            counts@.contains_key(e) <==> occurrences(upto, e as int) > 0 by {
            if e != d {
                assert(counts@.contains_key(e) == before.contains_key(e));
            }
        }
        assert forall|e: i64|
            #![trigger counts@[e]]
            counts@.contains_key(e) implies counts@[e] == occurrences(upto, e as int) by {
            if e != d {
                assert(before.contains_key(e));
                assert(counts@[e] == before[e]);
            }
        }
    }
    assert(all.take(all.len() as int) =~= all);
    assert forall|d: i64|
        #![trigger counts@.contains_key(d)]
        counts@.contains_key(d) <==> all.contains(d as int) by {
        lemma_occurs(all, d as int);
    }
    counts
}

/// The most common difference and how often it occurs.
fn detect(diffs: &Vec<i64>) -> (r: Option<(i64, usize)>)
    requires
        forall|k: int| 0 <= k < diffs@.len() ==> -PTS_WRAP <= #[trigger] diffs@[k] <= PTS_WRAP,
    ensures
        r is None <==> diffs@.len() == 0,
        r matches Some(d) ==> most_common(diff_ints(diffs@), d.0 as int) && d.1 == occurrences(
            diff_ints(diffs@),
            d.0 as int,
        ),
{
    let counts = count_diffs(diffs);
    let ghost all = diff_ints(diffs@);
    let mut best: Option<(i64, usize)> = None;
    for k in 0..diffs.len()
        invariant
            all == diff_ints(diffs@),
            forall|k: int| 0 <= k < diffs@.len() ==> -PTS_WRAP <= #[trigger] diffs@[k] <= PTS_WRAP,
            forall|d: i64|
                #![trigger counts@.contains_key(d)]
                counts@.contains_key(d) <==> all.contains(d as int),
            forall|d: i64|
                #![trigger counts@[d]]
                counts@.contains_key(d) ==> counts@[d] == occurrences(all, d as int),
            best is None <==> k == 0,
            best matches Some(b) ==> {
                &&& -PTS_WRAP <= b.0 <= PTS_WRAP
                &&& all.contains(b.0 as int)
                &&& b.1 == occurrences(all, b.0 as int)
                &&& forall|i: int|
                    0 <= i < k ==> occurrences(all, #[trigger] all[i]) < b.1 || (occurrences(
                        all,
                        all[i],
                    ) == b.1 && magnitude(b.0 as int) <= magnitude(all[i]))
            },
    {
        let d: i64 = diffs[k];
        assert(all[k as int] == d);
        assert(all.contains(d as int));
        assert(counts@.contains_key(d));
        let n: usize = match counts.get(&d) {
            Some(n) => *n,
            None => 0,
        };
        assert(n == occurrences(all, d as int));
        let better = match best {
            Some((e, m)) => n > m || (n == m && near(d) < near(e)),
            None => true,
        };
        if better {
            best = Some((d, n));
        }
    }
    proof {
        if let Some(b) = best {
            assert forall|e: int| #[trigger] all.contains(e) implies occurrences(all, e)
                < occurrences(all, b.0 as int) || (occurrences(all, e) == occurrences(
                all,
                b.0 as int,
            ) && magnitude(b.0 as int) <= magnitude(e)) by {
                let i = choose|i: int| 0 <= i < all.len() && all[i] == e;
                assert(occurrences(all, all[i]) <= b.1);
            }
        }
    }
    best
}

fn near(d: i64) -> (r: i64)
    requires
        -PTS_WRAP <= d <= PTS_WRAP,
    ensures
        r == magnitude(d as int),
{
    if d < 0 {
        -d
    } else {
        d
    }
}

/// The outcome of matching.
pub struct Matched {
    /// Indices into the input and output rows.
    pub pairs: Vec<(usize, usize)>,
    pub method: &'static str,
    pub pts_offset: Option<i64>,
    pub offset_agree: usize,
    pub offset_checked: usize,
}

/// The content pairs that a mode starts from.
pub open spec fn content_pairs(inp: Seq<Row>, out: Seq<Row>, mode: MatchMode) -> Seq<(int, int)> {
    if mode == MatchMode::Pts {
        seq![]
    } else {
        hash_pairs(inp, out)
    }
}

/// Whether a mode matches by content: always, never, or if at least half of the
/// output frames found a partner, and any at all.
pub open spec fn by_content(inp: Seq<Row>, out: Seq<Row>, mode: MatchMode) -> bool {
    match mode {
        MatchMode::Hash => true,
        MatchMode::Pts => false,
        MatchMode::Auto => {
            let n = hash_pairs(inp, out).len();
            2 * n >= out.len() && n > 0
        },
    }
}

/// Matches input and output frames.
///
/// Two differences that occur equally often, as far from zero on either side,
/// are both most common; which of them is taken is left open.
pub fn match_frames(
    inp: &[Row],
    out: &[Row],
    mode: MatchMode,
    forced_offset: Option<i64>,
) -> (r: Matched)
    ensures
        ({
            let diffs = pair_diffs(inp@, out@, content_pairs(inp@, out@, mode));
            &&& by_content(inp@, out@, mode) ==> {
                &&& r.method@ == "content hash"@
                &&& pair_ints(r.pairs@) == hash_pairs(inp@, out@)
                &&& r.offset_checked == diffs.len()
                &&& diffs.len() == 0 ==> r.offset_agree == 0 && r.pts_offset == forced_offset
                &&& diffs.len() > 0 ==> exists|d: i64|
                    {
                        &&& #[trigger] most_common(diffs, d as int)
                        &&& r.offset_agree == occurrences(diffs, d as int)
                        &&& r.pts_offset == (if forced_offset is Some {
                            forced_offset
                        } else {
                            Some(d)
                        })
                    }
            }
            &&& !by_content(inp@, out@, mode) ==> {
                &&& r.method@ == "pts"@
                &&& r.pts_offset is Some
                &&& forced_offset is Some ==> r.pts_offset == forced_offset
                &&& forced_offset is None && diffs.len() == 0 ==> r.pts_offset == Some(0i64)
                &&& forced_offset is None && diffs.len() > 0 ==> most_common(
                    diffs,
                    r.pts_offset->0 as int,
                )
                &&& pair_ints(r.pairs@) == pts_pairs(inp@, out@, r.pts_offset->0)
                &&& r.offset_agree == r.pairs@.len()
                &&& r.offset_checked == r.pairs@.len()
            }
        }),
        forall|k: int|
            0 <= k < r.pairs@.len() ==> (#[trigger] r.pairs@[k]).0 < inp@.len() && r.pairs@[k].1
                < out@.len(),
{
    let hp = if matches!(mode, MatchMode::Pts) {
        Vec::new()
    } else {
        match_hash(inp, out)
    };
    assert(pair_ints(hp@) =~= content_pairs(inp@, out@, mode));
    // Offset = mode of PTS differences over content matches.
    let diffs = collect_diffs(inp, out, &hp);
    let detected = detect(&diffs);
    let use_hash = match mode {
        MatchMode::Hash => true,
        MatchMode::Pts => false,
        MatchMode::Auto => hp.len() >= out.len() - hp.len() && hp.len() > 0,
    };
    assert(use_hash == by_content(inp@, out@, mode));
    let offset = match forced_offset {
        Some(o) => Some(o),
        None => match detected {
            Some((d, _)) => Some(d),
            None => None,
        },
    };
    if use_hash {
        let agree: usize = match detected {
            Some((_, n)) => n,
            None => 0,
        };
        return Matched {
            pairs: hp,
            method: "content hash",
            pts_offset: offset,
            offset_agree: agree,
            offset_checked: diffs.len(),
        };
    }
    let off: i64 = match offset {
        Some(o) => o,
        None => 0,
    };
    let pairs = match_pts(inp, out, off);
    let n: usize = pairs.len();
    Matched { pairs, method: "pts", pts_offset: Some(off), offset_agree: n, offset_checked: n }
}

/// The pairs whose input arrived at least `skip_ns` after the first input frame.
pub open spec fn warmed_up(
    inp: Seq<Row>,
    pairs: Seq<(usize, usize)>,
    skip_ns: i64,
) -> Seq<(usize, usize)>
    decreases pairs.len(),
{
    if pairs.len() == 0 {
        seq![]
    } else {
        let head = warmed_up(inp, pairs.drop_last(), skip_ns);
        if inp[pairs.last().0 as int].wall - inp[0].wall >= skip_ns {
            head.push(pairs.last())
        } else {
            head
        }
    }
}

/// Drops the pairs whose input arrived in the first `skip_ns` nanoseconds.
pub fn skip_warm_up(inp: &[Row], pairs: &Vec<(usize, usize)>, skip_ns: i64) -> (r: Vec<
    (usize, usize),
>)
    requires
        inp@.len() > 0,
        forall|k: int| 0 <= k < pairs@.len() ==> (#[trigger] pairs@[k]).0 < inp@.len(),
    ensures
        r@ == warmed_up(inp@, pairs@, skip_ns),
{
    let mut r: Vec<(usize, usize)> = Vec::new();
    let t0: i64 = inp[0].wall;
    for k in 0..pairs.len()
        invariant
            inp@.len() > 0,
            t0 == inp@[0].wall,
            forall|k: int| 0 <= k < pairs@.len() ==> (#[trigger] pairs@[k]).0 < inp@.len(),
            r@ == warmed_up(inp@, pairs@.take(k as int), skip_ns),
    {
        let pair = pairs[k];
        assert(pairs@[k as int].0 < inp@.len());
        assert(pairs@.take(k + 1).drop_last() =~= pairs@.take(k as int));
        if inp[pair.0].wall as i128 - t0 as i128 >= skip_ns as i128 {
            r.push(pair);
        }
    }
    assert(pairs@.take(pairs@.len() as int) =~= pairs@);
    r
}

/// How many of the first `n` indices have the property.
pub open spec fn tally(n: nat, has: spec_fn(int) -> bool) -> nat
    decreases n,
{
    if n == 0 {
        0
    } else {
        tally((n - 1) as nat, has) + (if has(n - 1) {
            1nat
        } else {
            0
        })
    }
}

/// The row was matched.
pub open spec fn is_used(used: Seq<usize>, i: int) -> bool {
    exists|k: int| 0 <= k < used.len() && #[trigger] used[k] == i
}

/// The row was not matched, but lies between rows that were.
pub open spec fn is_missed(rows: Seq<Row>, used: Seq<usize>, i: int) -> bool {
    &&& !is_used(used, i)
    &&& exists|k: int|
        0 <= k < used.len() && rows[#[trigger] used[k] as int].wall <= rows[i].wall
    &&& exists|k: int|
        0 <= k < used.len() && rows[i].wall <= rows[#[trigger] used[k] as int].wall
}

/// Of the rows one side of the pairs uses: how many lie inside the window but
/// were not matched, and how many were matched, each counted once.
pub fn window_counts(rows: &[Row], used: &Vec<usize>) -> (r: (usize, usize))
    requires
        used@.len() > 0,
        forall|k: int| 0 <= k < used@.len() ==> (#[trigger] used@[k]) < rows@.len(),
    ensures
        r.0 == tally(rows@.len(), |i: int| is_missed(rows@, used@, i)),
        r.1 == tally(rows@.len(), |i: int| is_used(used@, i)),
{
    let mut mark: Vec<bool> = vec![false; rows.len()];
    let mut lo: usize = used[0];
    let mut hi: usize = used[0];
    let mut at_lo: usize = 0;
    let mut at_hi: usize = 0;
    assert(used@[0] < rows@.len());
    let mut k: usize = 0;
    while k < used.len()
        invariant
            k <= used@.len(),
            used@.len() > 0,
            forall|k: int| 0 <= k < used@.len() ==> (#[trigger] used@[k]) < rows@.len(),
            mark@.len() == rows@.len(),
            at_lo < used@.len() && lo == used@[at_lo as int],
            at_hi < used@.len() && hi == used@[at_hi as int],
            forall|j: int|
                0 <= j < k ==> rows@[lo as int].wall <= rows@[#[trigger] used@[j] as int].wall
                    && rows@[used@[j] as int].wall <= rows@[hi as int].wall,
            forall|i: int|
                0 <= i < rows@.len() ==> (#[trigger] mark@[i] <==> is_used(
                    used@.take(k as int),
                    i,
                )),
        decreases used@.len() - k,
    {
        let i: usize = used[k];
        let ghost marks = mark@;
        assert(used@[k as int] < rows@.len());
        assert(used@[at_lo as int] < rows@.len());
        assert(used@[at_hi as int] < rows@.len());
        if rows[i].wall < rows[lo].wall {
            lo = i;
            at_lo = k;
        }
        if rows[i].wall > rows[hi].wall {
            hi = i;
            at_hi = k;
        }
        mark.set(i, true);
        proof {
            let before = used@.take(k as int);
            let after = used@.take(k + 1);
            assert(after[k as int] == i);
            assert forall|j: int| 0 <= j < rows@.len() implies (#[trigger] mark@[j] <==> is_used(
                after,
                j,
            )) by {
                if is_used(before, j) {
                    let m = choose|m: int| 0 <= m < before.len() && #[trigger] before[m] == j;
                    assert(after[m] == j);
                }
                if is_used(after, j) {
                    let m = choose|m: int| 0 <= m < after.len() && #[trigger] after[m] == j;
                    if m < k {
                        assert(before[m] == j);
                    }
                }
                assert(j != i ==> mark@[j] == marks[j]);
            }
        }
        k = k + 1;
    }
    assert(used@.take(k as int) =~= used@);
    let ghost missed = |i: int| is_missed(rows@, used@, i);
    let ghost seen = |i: int| is_used(used@, i);
    let mut a: usize = 0;
    let mut b: usize = 0;
    for i in 0..rows.len()
        invariant
            used@.len() > 0,
            forall|k: int| 0 <= k < used@.len() ==> (#[trigger] used@[k]) < rows@.len(),
            mark@.len() == rows@.len(),
            at_lo < used@.len() && lo == used@[at_lo as int],
            at_hi < used@.len() && hi == used@[at_hi as int],
            forall|j: int|
                0 <= j < used@.len() ==> rows@[lo as int].wall <= rows@[#[trigger] used@[j] as int].wall
                    && rows@[used@[j] as int].wall <= rows@[hi as int].wall,
            forall|i: int|
                0 <= i < rows@.len() ==> (#[trigger] mark@[i] <==> is_used(used@, i)),
            missed == (|i: int| is_missed(rows@, used@, i)),
            seen == (|i: int| is_used(used@, i)),
            a == tally(i as nat, missed),
            b == tally(i as nat, seen),
            a <= i,
            b <= i,
    {
        assert(used@[at_lo as int] < rows@.len());
        assert(used@[at_hi as int] < rows@.len());
        if mark[i] {
            b = b + 1;
        } else if rows[i].wall >= rows[lo].wall && rows[i].wall <= rows[hi].wall {
            assert(is_missed(rows@, used@, i as int));
            a = a + 1;
        } else {
            assert(!is_missed(rows@, used@, i as int));
        }
    }
    (a, b)
}

/// The frame picked is a candidate. It is not after the output frame if any
/// candidate is not, and then no such candidate is later; otherwise no candidate
/// is earlier.
pub proof fn law_pick(cands: Seq<int>, rows: Seq<Row>, wall: i64)
    ensures
        picked(cands, rows, wall) is Some <==> cands.len() > 0,
        picked(cands, rows, wall) matches Some(i) ==> {
            &&& exists|k: int| 0 <= k < cands.len() && #[trigger] cands[k] == i
            &&& rows[i].wall <= wall ==> forall|k: int|
                0 <= k < cands.len() && rows[#[trigger] cands[k]].wall <= wall
                    ==> rows[cands[k]].wall <= rows[i].wall
            &&& rows[i].wall > wall ==> forall|k: int|
                0 <= k < cands.len() ==> rows[#[trigger] cands[k]].wall > wall && rows[i].wall
                    <= rows[cands[k]].wall
        },
{
    lemma_latest(cands, rows, wall);
    lemma_earliest(cands, rows);
}

proof fn lemma_latest(cands: Seq<int>, rows: Seq<Row>, wall: i64)
    ensures
        latest(cands, rows, wall) is None ==> forall|k: int|
            0 <= k < cands.len() ==> rows[#[trigger] cands[k]].wall > wall,
        latest(cands, rows, wall) matches Some(i) ==> {
            &&& rows[i].wall <= wall
            &&& exists|k: int| 0 <= k < cands.len() && #[trigger] cands[k] == i
            &&& forall|k: int|
                0 <= k < cands.len() && rows[#[trigger] cands[k]].wall <= wall
                    ==> rows[cands[k]].wall <= rows[i].wall
        },
    decreases cands.len(),
{
    if cands.len() > 0 {
        let init = cands.drop_last();
        lemma_latest(init, rows, wall);
        assert forall|k: int| 0 <= k < init.len() implies #[trigger] cands[k] == init[k] by {}
        let n = cands.len() - 1;
        assert(cands[n] == cands.last());
        if let Some(i) = latest(cands, rows, wall) {
            if i != cands.last() {
                let k = choose|k: int| 0 <= k < init.len() && #[trigger] init[k] == i;
                assert(cands[k] == i);
            }
        }
    }
}

proof fn lemma_earliest(cands: Seq<int>, rows: Seq<Row>)
    ensures
        earliest(cands, rows) is None <==> cands.len() == 0,
        earliest(cands, rows) matches Some(i) ==> {
            &&& exists|k: int| 0 <= k < cands.len() && #[trigger] cands[k] == i
            &&& forall|k: int|
                0 <= k < cands.len() ==> rows[i].wall <= rows[#[trigger] cands[k]].wall
        },
    decreases cands.len(),
{
    if cands.len() > 0 {
        let init = cands.drop_last();
        lemma_earliest(init, rows);
        assert forall|k: int| 0 <= k < init.len() implies #[trigger] cands[k] == init[k] by {}
        let n = cands.len() - 1;
        assert(cands[n] == cands.last());
        if let Some(i) = earliest(cands, rows) {
            if i != cands.last() {
                let k = choose|k: int| 0 <= k < init.len() && #[trigger] init[k] == i;
                assert(cands[k] == i);
            }
        }
    }
}

proof fn lemma_paired_in_range(
    inp: Seq<Row>,
    out: Seq<Row>,
    n: nat,
    partner: spec_fn(Row) -> Option<int>,
)
    requires
        forall|r: Row| (#[trigger] partner(r)) matches Some(i) ==> 0 <= i < inp.len(),
    ensures
        ({
            let pairs = paired(out, n, partner);
            &&& forall|k: int|
                0 <= k < pairs.len() ==> 0 <= (#[trigger] pairs[k]).0 < inp.len() && 0
                    <= pairs[k].1 < n
            &&& forall|j: int, k: int|
                #![trigger pairs[j], pairs[k]]
                0 <= j < k < pairs.len() ==> pairs[j].1 < pairs[k].1
        }),
    decreases n,
{
    if n > 0 {
        lemma_paired_in_range(inp, out, (n - 1) as nat, partner);
        let head = paired(out, (n - 1) as nat, partner);
        let all = paired(out, n, partner);
        assert forall|k: int| 0 <= k < head.len() implies #[trigger] all[k] == head[k] by {}
    }
}

/// A pair joins an input frame and an output frame, and an output frame is in at
/// most one pair.
pub proof fn law_pairs_join_frames(inp: Seq<Row>, out: Seq<Row>, offset: i64)
    ensures
        forall|k: int|
            0 <= k < hash_pairs(inp, out).len() ==> {
                let p = #[trigger] hash_pairs(inp, out)[k];
                0 <= p.0 < inp.len() && 0 <= p.1 < out.len()
            },
        forall|k: int|
            0 <= k < pts_pairs(inp, out, offset).len() ==> {
                let p = #[trigger] pts_pairs(inp, out, offset)[k];
                0 <= p.0 < inp.len() && 0 <= p.1 < out.len()
            },
        forall|j: int, k: int|
            #![trigger hash_pairs(inp, out)[j], hash_pairs(inp, out)[k]]
            0 <= j < k < hash_pairs(inp, out).len() ==> hash_pairs(inp, out)[j].1 < hash_pairs(
                inp,
                out,
            )[k].1,
        forall|j: int, k: int|
            #![trigger pts_pairs(inp, out, offset)[j], pts_pairs(inp, out, offset)[k]]
            0 <= j < k < pts_pairs(inp, out, offset).len() ==> pts_pairs(inp, out, offset)[j].1
                < pts_pairs(inp, out, offset)[k].1,
{
    let by_hash = |row: Row| hash_partner(inp, row);
    assert forall|r: Row| (#[trigger] by_hash(r)) is Some implies 0 <= by_hash(r)->0
        < inp.len() by {
        let cands = selected(inp, inp.len(), |x: Row| x.hash == r.hash);
        lemma_selected_bounds(inp, inp.len(), |x: Row| x.hash == r.hash);
        law_pick(cands, inp, r.wall);
    }
    lemma_paired_in_range(inp, out, out.len(), by_hash);
    let by_pts = |row: Row| pts_partner(inp, row, offset);
    assert forall|r: Row| (#[trigger] by_pts(r)) is Some implies 0 <= by_pts(r)->0
        < inp.len() by {
        let key = (r.pts->0 - offset) % (PTS_WRAP as int);
        let cands = selected(inp, inp.len(), |x: Row| pts_is(x, key));
        lemma_selected_bounds(inp, inp.len(), |x: Row| pts_is(x, key));
        law_pick(cands, inp, r.wall);
    }
    lemma_paired_in_range(inp, out, out.len(), by_pts);
}

} // verus!
