//! Minimal Annex-B elementary-stream helpers: split into NAL units and insert
//! a caption SEI into every access unit before its first VCL NAL.
use vstd::prelude::*;
use vstd::slice::slice_subrange;

use crate::cc::{h264_sei, h264_sei_nal, hevc_sei, hevc_sei_nal, CcTriple};

verus! {

#[derive(Clone, Copy, Debug, PartialEq, Eq, Structural)]
pub enum VideoCodec {
    H264,
    Hevc,
}

/// A three-byte start code stands at `i`.
pub open spec fn code_at(data: Seq<u8>, i: int) -> bool {
    0 <= i && i + 3 <= data.len() && data[i] == 0 && data[i + 1] == 0 && data[i + 2] == 1
}

/// The first start code from `i` on, or the end of the data.
pub open spec fn next_code(data: Seq<u8>, i: int) -> int
    decreases data.len() - i,
{
    if i + 3 > data.len() {
        data.len() as int
    } else if code_at(data, i) {
        i
    } else {
        next_code(data, i + 1)
    }
}

/// A byte string without its trailing zeros.
pub open spec fn without_trailing_zeros(s: Seq<u8>) -> Seq<u8>
    decreases s.len(),
{
    if s.len() > 0 && s.last() == 0 {
        without_trailing_zeros(s.drop_last())
    } else {
        s
    }
}

/// A list with one NAL unit in it, or none if that is empty.
pub open spec fn unless_empty(nal: Seq<u8>) -> Seq<Seq<u8>> {
    if nal.len() > 0 {
        seq![nal]
    } else {
        seq![]
    }
}

/// The NAL units from `i` on: what stands between start codes, without trailing
/// zeros, empty ones left out.
pub open spec fn nals_from(data: Seq<u8>, i: int) -> Seq<Seq<u8>>
    decreases data.len() - i,
{
    let start = next_code(data, i);
    if i < 0 || start + 3 > data.len() || start < i {
        seq![]
    } else {
        let end = next_code(data, start + 3);
        if end < start + 3 || end > data.len() {
            seq![]
        } else {
            unless_empty(without_trailing_zeros(data.subrange(start + 3, end))) + nals_from(
                data,
                end,
            )
        }
    }
}

/// The NAL units of a stream.
pub open spec fn nals(data: Seq<u8>) -> Seq<Seq<u8>> {
    nals_from(data, 0)
}

/// The bytes of a list of slices.
pub open spec fn slices(list: Seq<&[u8]>) -> Seq<Seq<u8>> {
    list.map_values(|s: &[u8]| s@)
}

/// The next start code stands no earlier than `i`, and none stands before it.
pub proof fn lemma_next_code(data: Seq<u8>, i: int)
    requires
        0 <= i <= data.len(),
    ensures
        i <= next_code(data, i) <= data.len(),
        next_code(data, i) < data.len() ==> code_at(data, next_code(data, i)),
        forall|k: int| i <= k < next_code(data, i) ==> !#[trigger] code_at(data, k),
    decreases data.len() - i,
{
    if i + 3 <= data.len() && !code_at(data, i) {
        lemma_next_code(data, i + 1);
    }
}

/// The first start code from `i` on, or the length of the data.
fn find_code(data: &[u8], i: usize) -> (r: usize)
    requires
        i <= data@.len(),
    ensures
        r == next_code(data@, i as int),
        i <= r <= data@.len(),
{
    proof {
        lemma_next_code(data@, i as int);
    }
    let mut k: usize = i;
    while data.len() - k >= 3
        invariant
            i <= k <= data@.len(),
            next_code(data@, i as int) == next_code(data@, k as int),
            i <= next_code(data@, i as int) <= data@.len(),
        decreases data@.len() - k,
    {
        if data[k] == 0 && data[k + 1] == 0 && data[k + 2] == 1 {
            return k;
        }
        k = k + 1;
    }
    data.len()
}

/// NAL units (without start codes) of an Annex-B byte stream. Trailing zero
/// bytes before a start code are dropped.
pub fn split_nals(data: &[u8]) -> (r: Vec<&[u8]>)
    ensures
        slices(r@) == nals(data@),
{
    let mut out: Vec<&[u8]> = Vec::new();
    assert(slices(out@) =~= seq![]);
    let mut at: usize = find_code(data, 0);
    proof {
        lemma_next_code(data@, 0);
        assert(nals_from(data@, 0) =~= slices(out@) + nals_from(data@, 0));
        if at < data@.len() {
            assert(next_code(data@, at as int) == at);
        }
    }
    let ghost mut i: int = 0;
    while at < data.len()
        invariant
            at <= data@.len(),
            at < data@.len() ==> code_at(data@, at as int),
            0 <= i <= at,
            next_code(data@, i) == at,
            nals(data@) == slices(out@) + nals_from(data@, i),
        decreases data@.len() - at,
    {
        let start: usize = at + 3;
        let next: usize = find_code(data, start);
        proof {
            lemma_next_code(data@, start as int);
        }
        let ghost body = data@.subrange(start as int, next as int);
        let mut end: usize = next;
        while end > start && data[end - 1] == 0
            invariant
                start <= end <= next <= data@.len(),
                body == data@.subrange(start as int, next as int),
                without_trailing_zeros(body) == without_trailing_zeros(
                    data@.subrange(start as int, end as int),
                ),
            decreases end - start,
        {
            assert(data@.subrange(start as int, end as int).drop_last() =~= data@.subrange(
                start as int,
                end - 1,
            ));
            end = end - 1;
        }
        let ghost nal = data@.subrange(start as int, end as int);
        assert(without_trailing_zeros(nal) == nal);
        let ghost before = slices(out@);
        if end > start {
            out.push(slice_subrange(data, start, end));
            assert(slices(out@) =~= before.push(nal));
            assert(before.push(nal) =~= before + unless_empty(nal));
        } else {
            assert(slices(out@) =~= before + unless_empty(nal));
        }
        proof {
            let rest = nals_from(data@, next as int);
            assert(nals_from(data@, i) == unless_empty(nal) + rest);
            assert(before + (unless_empty(nal) + rest) =~= before + unless_empty(nal) + rest);
            i = next as int;
            if next < data@.len() {
                assert(next_code(data@, i) == next);
            }
        }
        at = next;
    }
    assert(slices(out@) + nals_from(data@, i) =~= slices(out@));
    out
}

/// The H.264 NAL unit type.
pub open spec fn h264_type(header: u8) -> u8 {
    header & 0x1F
}

/// The HEVC NAL unit type.
pub open spec fn hevc_type(header: u8) -> u8 {
    (header >> 1) & 0x3F
}

/// The NAL unit is a slice and begins a new picture.
pub open spec fn begins_picture(codec: VideoCodec, nal: Seq<u8>) -> bool {
    match codec {
        VideoCodec::H264 => {
            &&& nal.len() >= 2
            &&& 1 <= h264_type(nal[0]) <= 5
            &&& nal[1] >= 0x80
        },
        VideoCodec::Hevc => {
            &&& nal.len() >= 3
            &&& hevc_type(nal[0]) < 32
            &&& nal[2] >= 0x80
        },
    }
}

/// True if `nal` is the first slice of a new picture (H.264 `first_mb_in_slice
/// == 0`, HEVC `first_slice_segment_in_pic_flag`).
pub fn starts_picture(codec: VideoCodec, nal: &[u8]) -> (r: bool)
    ensures
        r == begins_picture(codec, nal@),
{
    match codec {
        VideoCodec::H264 => {
            if nal.len() < 2 {
                return false;
            }
            let t: u8 = nal[0] & 0x1F;
            1 <= t && t <= 5 && nal[1] >= 0x80
        },
        VideoCodec::Hevc => {
            if nal.len() < 3 {
                return false;
            }
            let t: u8 = (nal[0] >> 1) & 0x3F;
            t < 32 && nal[2] >= 0x80
        },
    }
}

/// How many of the NAL units begin a picture.
pub open spec fn pictures(codec: VideoCodec, list: Seq<Seq<u8>>) -> nat
    decreases list.len(),
{
    if list.len() == 0 {
        0
    } else {
        pictures(codec, list.drop_last()) + (if begins_picture(codec, list.last()) {
            1nat
        } else {
            0
        })
    }
}

/// The caption SEI of a codec.
pub open spec fn sei(codec: VideoCodec, triples: Seq<CcTriple>) -> Seq<u8> {
    match codec {
        VideoCodec::H264 => h264_sei(triples),
        VideoCodec::Hevc => hevc_sei(triples),
    }
}

/// The NAL units with the caption SEI of picture `k`, made from `captions[k]`,
/// before the unit that begins it.
pub open spec fn captioned(
    codec: VideoCodec,
    list: Seq<Seq<u8>>,
    captions: Seq<Seq<CcTriple>>,
) -> Seq<Seq<u8>>
    decreases list.len(),
{
    if list.len() == 0 {
        seq![]
    } else {
        let head = captioned(codec, list.drop_last(), captions);
        if begins_picture(codec, list.last()) {
            head.push(sei(codec, captions[pictures(codec, list.drop_last()) as int])).push(
                list.last(),
            )
        } else {
            head.push(list.last())
        }
    }
}

/// The captions of each picture.
pub open spec fn triple_lists(captions: Seq<Vec<CcTriple>>) -> Seq<Seq<CcTriple>> {
    captions.map_values(|v: Vec<CcTriple>| v@)
}

/// The byte stream of a list of NAL units: each behind a four-byte start code.
pub open spec fn stream(list: Seq<Seq<u8>>) -> Seq<u8>
    decreases list.len(),
{
    if list.len() == 0 {
        seq![]
    } else {
        stream(list.drop_last()) + seq![0u8, 0, 0, 1] + list.last()
    }
}

/// Appends a NAL unit behind a four-byte start code.
fn append_nal(out: &mut Vec<u8>, nal: &[u8])
    ensures
        final(out)@ == old(out)@ + seq![0u8, 0, 0, 1] + nal@,
{
    out.push(0);
    out.push(0);
    out.push(0);
    out.push(1);
    let ghost head = out@;
    out.extend_from_slice(nal);
    assert(out@ =~= head + nal@);
}

proof fn lemma_captions_extend(
    codec: VideoCodec,
    list: Seq<Seq<u8>>,
    a: Seq<Seq<CcTriple>>,
    b: Seq<Seq<CcTriple>>,
)
    requires
        pictures(codec, list) <= a.len() <= b.len(),
        a == b.take(a.len() as int),
    ensures
        captioned(codec, list, a) == captioned(codec, list, b),
    decreases list.len(),
{
    if list.len() > 0 {
        lemma_captions_extend(codec, list.drop_last(), a, b);
        if begins_picture(codec, list.last()) {
            let k = pictures(codec, list.drop_last()) as int;
            assert(a[k] == b[k]);
        }
    }
}

/// Copies `stream`, inserting a caption SEI (from `triples_for`, called with
/// the frame index in decode order) right before the first VCL NAL of every
/// picture. Returns the new stream and the number of pictures.
///
/// Decode order equals display order only without B-frames; with B-frames the
/// caller must map decode order to display order itself.
pub fn insert_cc_sei<F: FnMut(u64) -> Vec<CcTriple>>(
    bytes: &[u8],
    codec: VideoCodec,
    mut triples_for: F,
) -> (r: (Vec<u8>, u64))
    requires
        forall|k: u64| #[trigger] call_requires(triples_for, (k,)),
    ensures
        r.1 == pictures(codec, nals(bytes@)),
        exists|captions: Seq<Vec<CcTriple>>|
            {
                &&& captions.len() == r.1
                &&& forall|k: int|
                    0 <= k < r.1 ==> call_ensures(
                        triples_for,
                        (k as u64,),
                        #[trigger] captions[k],
                    )
                &&& r.0@ == stream(
                    #[trigger] captioned(
                        codec,
                        nals(bytes@),
                        triple_lists(captions),
                    ),
                )
            },
{
    let ghost source = triples_for;
    let units = split_nals(bytes);
    let ghost all = nals(bytes@);
    let mut out: Vec<u8> = Vec::new();
    let mut frames: u64 = 0;
    let ghost mut captions: Seq<Vec<CcTriple>> = seq![];
    let ghost mut lists: Seq<Seq<CcTriple>> = seq![];
    assert(triple_lists(captions) =~= lists);
    for i in 0..units.len()
        invariant
            slices(units@) == all,
            frames == pictures(codec, all.take(i as int)),
            frames <= i,
            captions.len() == frames,
            lists == triple_lists(captions),
            triples_for == source,
            forall|k: u64| #[trigger] call_requires(source, (k,)),
            forall|k: int|
                0 <= k < frames ==> call_ensures(
                    source,
                    (k as u64,),
                    #[trigger] captions[k],
                ),
            out@ == stream(captioned(codec, all.take(i as int), lists)),
    {
        let nal = units[i];
        assert(all[i as int] == nal@);
        let ghost upto = all.take(i + 1);
        assert(upto.drop_last() =~= all.take(i as int));
        let ghost done = captioned(codec, all.take(i as int), lists);
        if starts_picture(codec, nal) {
            let triples = triples_for(frames);
            let made = match codec {
                VideoCodec::H264 => h264_sei_nal(triples.as_slice()),
                VideoCodec::Hevc => hevc_sei_nal(triples.as_slice()),
            };
            append_nal(&mut out, made.as_slice());
            proof {
                let more = captions.push(triples);
                let longer = triple_lists(more);
                assert(longer =~= lists.push(triples@));
                assert(longer.take(lists.len() as int) =~= lists);
                lemma_captions_extend(codec, all.take(i as int), lists, longer);
                let with_sei = done.push(sei(codec, triples@));
                assert(with_sei.drop_last() =~= done);
                assert(out@ == stream(with_sei));
                assert(with_sei.push(nal@).drop_last() =~= with_sei);
                assert(captioned(codec, upto, longer) == with_sei.push(nal@));
                captions = more;
                lists = longer;
            }
            frames = frames + 1;
        } else {
            assert(done.push(nal@).drop_last() =~= done);
        }
        append_nal(&mut out, nal);
    }
    assert(all.take(all.len() as int) =~= all);
    assert(captioned(codec, nals(bytes@), triple_lists(captions)) == captioned(
        codec,
        all,
        lists,
    ));
    (out, frames)
}

} // verus!
