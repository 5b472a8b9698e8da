//! What splitting and captioning a byte stream promise.
use vstd::prelude::*;

use crate::annexb::{
    begins_picture, captioned, code_at, lemma_next_code, nals, nals_from, next_code, pictures, sei,
    stream, unless_empty, without_trailing_zeros, VideoCodec,
};
use crate::cc::{
    h264_sei, hevc_sei, law_sei_nal_ends_in_trailing_bits, law_sei_nal_has_no_start_code,
    start_code_at, CcTriple,
};

verus! {

/// A NAL unit as splitting yields it: not empty, no trailing zero, no start code.
pub open spec fn clean(nal: Seq<u8>) -> bool {
    &&& nal.len() > 0
    &&& nal.last() != 0
    &&& forall|i: int| !#[trigger] code_at(nal, i)
}

/// NAL units that are all clean.
pub open spec fn all_clean(list: Seq<Seq<u8>>) -> bool {
    forall|k: int| 0 <= k < list.len() ==> clean(#[trigger] list[k])
}

proof fn lemma_next_code_found(data: Seq<u8>, i: int, at: int)
    requires
        0 <= i <= at <= data.len(),
        at < data.len() ==> code_at(data, at),
        forall|k: int| i <= k < at ==> !#[trigger] code_at(data, k),
    ensures
        next_code(data, i) == at,
    decreases at - i,
{
    if i < at {
        if i + 3 <= data.len() {
            assert(!code_at(data, i));
            lemma_next_code_found(data, i + 1, at);
        }
    } else if at < data.len() {
        assert(code_at(data, at));
    }
}

proof fn lemma_trimmed(s: Seq<u8>)
    ensures
        without_trailing_zeros(s).len() <= s.len(),
        without_trailing_zeros(s) == s.take(without_trailing_zeros(s).len() as int),
        without_trailing_zeros(s).len() > 0 ==> without_trailing_zeros(s).last() != 0,
    decreases s.len(),
{
    if s.len() > 0 && s.last() == 0 {
        lemma_trimmed(s.drop_last());
        let n = without_trailing_zeros(s).len() as int;
        assert(s.drop_last().take(n) =~= s.take(n));
    } else {
        assert(s.take(s.len() as int) =~= s);
    }
}

proof fn lemma_nals_from_clean(data: Seq<u8>, i: int)
    requires
        0 <= i <= data.len(),
    ensures
        all_clean(nals_from(data, i)),
    decreases data.len() - i,
{
    let start = next_code(data, i);
    lemma_next_code(data, i);
    if start + 3 <= data.len() {
        let end = next_code(data, start + 3);
        lemma_next_code(data, start + 3);
        let body = data.subrange(start + 3, end);
        let nal = without_trailing_zeros(body);
        lemma_trimmed(body);
        lemma_nals_from_clean(data, end);
        assert forall|k: int| !#[trigger] code_at(nal, k) by {
            if code_at(nal, k) {
                assert(nal[k] == body[k] && nal[k + 1] == body[k + 1] && nal[k + 2] == body[k + 2]);
                assert(code_at(data, start + 3 + k));
            }
        }
        let rest = nals_from(data, end);
        let list = unless_empty(nal) + rest;
        assert forall|k: int| 0 <= k < list.len() implies clean(#[trigger] list[k]) by {
            let n = unless_empty(nal).len();
            if k >= n {
                assert(list[k] == rest[k - n]);
            }
        }
    }
}

/// The NAL units of a stream are clean.
pub proof fn law_split_units_are_clean(data: Seq<u8>)
    ensures
        all_clean(nals(data)),
{
    lemma_nals_from_clean(data, 0);
}

/// Zero bytes.
pub open spec fn zeros(n: nat) -> Seq<u8> {
    Seq::new(n, |k: int| 0u8)
}

/// A start code with `n` zero bytes before it: three bytes long with none, four
/// with one.
pub open spec fn start_code(n: nat) -> Seq<u8> {
    zeros(n) + seq![0u8, 0, 1]
}

/// NAL units, each behind its own start code.
pub open spec fn coded(list: Seq<Seq<u8>>, lead: Seq<nat>) -> Seq<u8>
    decreases list.len(),
{
    if list.len() == 0 {
        seq![]
    } else {
        coded(list.drop_last(), lead) + start_code(lead[list.len() - 1]) + list.last()
    }
}

proof fn lemma_coded_front(list: Seq<Seq<u8>>, lead: Seq<nat>)
    requires
        list.len() > 0,
        lead.len() == list.len(),
    ensures
        coded(list, lead) == start_code(lead[0]) + list[0] + coded(
            list.drop_first(),
            lead.drop_first(),
        ),
    decreases list.len(),
{
    let rest = list.drop_first();
    if list.len() == 1 {
        assert(list.drop_last() =~= seq![]);
        assert(coded(list.drop_last(), lead) =~= seq![]);
        assert(coded(rest, lead.drop_first()) =~= seq![]);
        assert(coded(list, lead) =~= start_code(lead[0]) + list[0] + coded(rest, lead.drop_first()));
    } else {
        let init = list.drop_last();
        let fewer = lead.drop_last();
        lemma_coded_same(init, lead, fewer);
        lemma_coded_front(init, fewer);
        lemma_coded_same(rest.drop_last(), lead.drop_first(), fewer.drop_first());
        assert(init.drop_first() =~= rest.drop_last());
        assert(lead.drop_first()[rest.len() - 1] == lead[list.len() - 1]);
        assert(coded(list, lead) =~= start_code(lead[0]) + list[0] + (coded(
            rest.drop_last(),
            lead.drop_first(),
        ) + start_code(lead[list.len() - 1]) + list.last()));
    }
}

/// Only the codes of the units that are there count.
proof fn lemma_coded_same(list: Seq<Seq<u8>>, a: Seq<nat>, b: Seq<nat>)
    requires
        list.len() <= a.len(),
        list.len() <= b.len(),
        forall|k: int| 0 <= k < list.len() ==> #[trigger] a[k] == b[k],
    ensures
        coded(list, a) == coded(list, b),
    decreases list.len(),
{
    if list.len() > 0 {
        lemma_coded_same(list.drop_last(), a, b);
        assert(a[list.len() - 1] == b[list.len() - 1]);
    }
}

/// From `i` on `n` zero bytes stand, and a start code behind them.
spec fn led_code_at(data: Seq<u8>, i: int, n: int) -> bool {
    &&& 0 <= i && 0 <= n && code_at(data, i + n)
    &&& forall|k: int| i <= k < i + n ==> #[trigger] data[k] == 0
}

/// From `i` on only zero bytes stand.
spec fn zeros_from(data: Seq<u8>, i: int) -> bool {
    forall|k: int| i <= k < data.len() ==> #[trigger] data[k] == 0
}

proof fn lemma_led_code(data: Seq<u8>, i: int, n: int)
    requires
        led_code_at(data, i, n),
    ensures
        next_code(data, i) == i + n,
        next_code(data, i + n) == i + n,
{
    assert forall|k: int| i <= k < i + n implies !#[trigger] code_at(data, k) by {
        if k + 2 < i + n {
            assert(data[k + 2] == 0);
        } else {
            assert(k + 2 == i + n || k + 2 == i + n + 1);
        }
    }
    lemma_next_code_found(data, i, i + n);
    lemma_next_code_found(data, i + n, i + n);
}

proof fn lemma_zeros_trimmed(nal: Seq<u8>, n: nat)
    requires
        nal.len() > 0,
        nal.last() != 0,
    ensures
        without_trailing_zeros(nal + zeros(n)) == nal,
    decreases n,
{
    if n == 0 {
        assert(nal + zeros(n) =~= nal);
    } else {
        lemma_zeros_trimmed(nal, (n - 1) as nat);
        assert((nal + zeros(n)).drop_last() =~= nal + zeros((n - 1) as nat));
    }
}

/// Neither in a clean unit nor over its end does a start code begin before `end`,
/// if zeros stand between.
proof fn lemma_no_code_within(data: Seq<u8>, nal: Seq<u8>, from: int, e: int, end: int)
    requires
        0 <= from,
        e == from + nal.len(),
        e <= end <= data.len(),
        data.subrange(from, e) == nal,
        clean(nal),
        forall|k: int| e <= k < end ==> #[trigger] data[k] == 0,
        end == data.len() || code_at(data, end),
    ensures
        forall|k: int| from <= k < end ==> !#[trigger] code_at(data, k),
{
    assert forall|k: int| from <= k < end implies !#[trigger] code_at(data, k) by {
        if code_at(data, k) {
            if k + 3 <= e {
                assert(data[k] == nal[k - from]);
                assert(data[k + 1] == nal[k + 1 - from]);
                assert(data[k + 2] == nal[k + 2 - from]);
                assert(code_at(nal, k - from));
            } else if k + 2 == e {
                assert(data[k + 1] == nal[k + 1 - from]);
            } else if k + 1 == e {
                assert(data[k] == nal[k - from]);
            } else if k + 2 < end {
                assert(data[k + 2] == 0);
            }
        }
    }
}

proof fn lemma_split_one(data: Seq<u8>, nal: Seq<u8>, o: int, n: int, e: int, m: int)
    requires
        led_code_at(data, o, n),
        e == o + n + 3 + nal.len(),
        e <= data.len(),
        data.subrange(o + n + 3, e) == nal,
        clean(nal),
        led_code_at(data, e, m) || (zeros_from(data, e) && m == data.len() - e),
    ensures
        nals_from(data, o) == seq![nal] + nals_from(data, e),
{
    let from = o + n + 3;
    let end = e + m;
    lemma_led_code(data, o, n);
    lemma_no_code_within(data, nal, from, e, end);
    lemma_next_code_found(data, from, end);
    let body = data.subrange(from, end);
    assert(body =~= nal + zeros(m as nat)) by {
        assert forall|k: int| 0 <= k < nal.len() implies body[k] == nal[k] by {
            assert(data.subrange(from, e)[k] == data[from + k]);
        }
    }
    lemma_zeros_trimmed(nal, m as nat);
    assert forall|k: int| e <= k < end implies !#[trigger] code_at(data, k) by {
        assert(!code_at(data, k));
    }
    lemma_next_code_found(data, e, end);
    lemma_next_code_found(data, end, end);
    assert(nals_from(data, e) == nals_from(data, end));
}

proof fn lemma_split_coded(prefix: Seq<u8>, list: Seq<Seq<u8>>, lead: Seq<nat>, tail: nat)
    requires
        all_clean(list),
        lead.len() == list.len(),
    ensures
        nals_from(prefix + coded(list, lead) + zeros(tail), prefix.len() as int) == list,
    decreases list.len(),
{
    let data = prefix + coded(list, lead) + zeros(tail);
    let o = prefix.len() as int;
    if list.len() == 0 {
        assert forall|k: int| o <= k < data.len() implies !#[trigger] code_at(data, k) by {
            if code_at(data, k) {
                assert(data[k + 2] == 0);
            }
        }
        lemma_next_code_found(data, o, data.len() as int);
        assert(nals_from(data, o) =~= list);
    } else {
        let nal = list[0];
        let rest = list.drop_first();
        let n = lead[0] as int;
        lemma_coded_front(list, lead);
        assert(clean(nal));
        assert forall|k: int| 0 <= k < rest.len() implies clean(#[trigger] rest[k]) by {
            assert(rest[k] == list[k + 1]);
        }
        let longer = prefix + start_code(lead[0]) + nal;
        assert(data =~= longer + coded(rest, lead.drop_first()) + zeros(tail));
        lemma_split_coded(longer, rest, lead.drop_first(), tail);
        let e = longer.len() as int;
        assert(led_code_at(data, o, n));
        assert(data.subrange(o + n + 3, e) =~= nal);
        let m: int = if rest.len() > 0 {
            lead[1] as int
        } else {
            tail as int
        };
        if rest.len() > 0 {
            lemma_coded_front(rest, lead.drop_first());
            assert(lead.drop_first()[0] == lead[1]);
            assert(led_code_at(data, e, m));
        } else {
            assert(coded(rest, lead.drop_first()) =~= seq![]);
            assert(zeros_from(data, e));
        }
        lemma_split_one(data, nal, o, n, e, m);
        assert(list =~= seq![nal] + rest);
    }
}

/// Splitting undoes joining, whatever the start codes: clean NAL units behind
/// start codes of three bytes, of four or with more zeros, in any mix, and with
/// zeros at the end, are found again, and nothing else.
pub proof fn law_start_codes_may_differ(list: Seq<Seq<u8>>, lead: Seq<nat>, tail: nat)
    requires
        all_clean(list),
        lead.len() == list.len(),
    ensures
        nals(coded(list, lead) + zeros(tail)) == list,
{
    lemma_split_coded(seq![], list, lead, tail);
    assert(Seq::<u8>::empty() + coded(list, lead) + zeros(tail) =~= coded(list, lead) + zeros(
        tail,
    ));
}

/// NAL units, each behind a start code of three bytes.
pub open spec fn short_stream(list: Seq<Seq<u8>>) -> Seq<u8>
    decreases list.len(),
{
    if list.len() == 0 {
        seq![]
    } else {
        short_stream(list.drop_last()) + seq![0u8, 0, 1] + list.last()
    }
}

proof fn lemma_streams_are_coded(list: Seq<Seq<u8>>, short: Seq<nat>, long: Seq<nat>)
    requires
        list.len() <= short.len(),
        list.len() <= long.len(),
        forall|k: int| 0 <= k < list.len() ==> #[trigger] short[k] == 0,
        forall|k: int| 0 <= k < list.len() ==> #[trigger] long[k] == 1,
    ensures
        short_stream(list) == coded(list, short),
        stream(list) == coded(list, long),
    decreases list.len(),
{
    if list.len() > 0 {
        lemma_streams_are_coded(list.drop_last(), short, long);
        assert(short[list.len() - 1] == 0 && long[list.len() - 1] == 1);
        assert(start_code(0) =~= seq![0u8, 0, 1]);
        assert(start_code(1) =~= seq![0u8, 0, 0, 1]);
    }
}

/// Splitting undoes joining: the stream of clean NAL units has exactly those
/// units, with start codes of four bytes and of three.
pub proof fn law_split_undoes_join(list: Seq<Seq<u8>>)
    requires
        all_clean(list),
    ensures
        nals(stream(list)) == list,
        nals(short_stream(list)) == list,
{
    let short: Seq<nat> = Seq::new(list.len(), |k: int| 0nat);
    let long: Seq<nat> = Seq::new(list.len(), |k: int| 1nat);
    lemma_streams_are_coded(list, short, long);
    law_start_codes_may_differ(list, short, 0);
    law_start_codes_may_differ(list, long, 0);
    assert(stream(list) + zeros(0) =~= stream(list));
    assert(short_stream(list) + zeros(0) =~= short_stream(list));
}

/// A caption SEI is a clean NAL unit.
pub proof fn law_sei_is_clean(codec: VideoCodec, triples: Seq<CcTriple>)
    ensures
        clean(sei(codec, triples)),
{
    law_sei_nal_has_no_start_code(triples);
    law_sei_nal_ends_in_trailing_bits(triples);
    let nal = sei(codec, triples);
    assert forall|i: int| !#[trigger] code_at(nal, i) by {
        assert(!start_code_at(h264_sei(triples), i));
        assert(!start_code_at(hevc_sei(triples), i));
    }
}

proof fn lemma_captioned_clean(
    codec: VideoCodec,
    list: Seq<Seq<u8>>,
    captions: Seq<Seq<CcTriple>>,
)
    requires
        all_clean(list),
    ensures
        all_clean(captioned(codec, list, captions)),
    decreases list.len(),
{
    if list.len() > 0 {
        let init = list.drop_last();
        assert forall|k: int| 0 <= k < init.len() implies clean(#[trigger] init[k]) by {
            assert(init[k] == list[k]);
        }
        lemma_captioned_clean(codec, init, captions);
        assert(clean(list[list.len() - 1]));
        if begins_picture(codec, list.last()) {
            law_sei_is_clean(codec, captions[pictures(codec, init) as int]);
        }
    }
}

/// A captioned stream splits into the units of the stream before, each picture's
/// caption SEI in front of it, and nothing else.
pub proof fn law_captioned_stream_splits(
    codec: VideoCodec,
    data: Seq<u8>,
    captions: Seq<Seq<CcTriple>>,
)
    ensures
        nals(stream(captioned(codec, nals(data), captions))) == captioned(
            codec,
            nals(data),
            captions,
        ),
{
    law_split_units_are_clean(data);
    lemma_captioned_clean(codec, nals(data), captions);
    law_split_undoes_join(captioned(codec, nals(data), captions));
}

} // verus!
