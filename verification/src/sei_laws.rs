//! What a receiver reads out of the caption SEI, and what becomes of audio on its
//! way to the recognizer.
use vstd::prelude::*;

use crate::audio::{mixed, mono, total, whole_part};
use crate::cc::{a53, carried, escaped, h264_sei, hevc_sei, law_escape_is_undone};
use crate::cc::{sei_message, size_bytes, unescaped, wire_all, CcTriple, CcType};
use crate::wav::{chunks_from, le32, wav_header, WavData, WavError};

verus! {

/// The kind of a triple by the number that stands for it on the wire.
pub open spec fn type_numbered(n: int) -> CcType {
    if n == 0 {
        CcType::Field1
    } else if n == 1 {
        CcType::Field2
    } else if n == 2 {
        CcType::DtvccData
    } else {
        CcType::DtvccStart
    }
}

/// What a receiver reads at a place as a triple: five marker bits, the validity,
/// the kind in two bits, two data bytes.
pub open spec fn triple_read(b: Seq<u8>, at: int) -> (bool, CcType, u8, u8) {
    ((b[at] / 4) % 2 == 1, type_numbered((b[at] % 4) as int), b[at + 1], b[at + 2])
}

/// A receiver reads the triple at a place.
pub open spec fn triple_at(b: Seq<u8>, at: int, t: CcTriple) -> bool {
    b[at] / 8 == 31 && triple_read(b, at) == t.parts()
}

/// A receiver reads registered user data of the ATSC, "GA94", type 3, as many
/// triples as the count says between two marker bytes.
pub open spec fn reads_as(b: Seq<u8>, triples: Seq<CcTriple>) -> bool {
    let n = triples.len() as int;
    &&& b.len() == 14 + 3 * n
    &&& b[0] == 4
    &&& b[1] == 11 + 3 * n
    &&& b.subrange(2, 10) == seq![0xB5u8, 0x00, 0x31, 0x47, 0x41, 0x39, 0x34, 0x03]
    &&& b[10] / 64 == 1 && b[10] % 32 == n && (b[10] / 32) % 2 == 0
    &&& b[11] == 0xFF
    &&& forall|i: int|
        #![trigger triples[i]]
        0 <= i < n ==> triple_at(b, 12 + 3 * i, triples[i])
    &&& b[12 + 3 * n] == 0xFF
    &&& b[13 + 3 * n] == 0x80
}

proof fn lemma_wire_all(triples: Seq<CcTriple>)
    ensures
        wire_all(triples).len() == 3 * triples.len(),
        forall|i: int|
            #![trigger triples[i]]
            0 <= i < triples.len() ==> triple_at(wire_all(triples), 3 * i, triples[i]),
    decreases triples.len(),
{
    if triples.len() > 0 {
        let init = triples.drop_last();
        lemma_wire_all(init);
        let head = wire_all(init);
        let all = wire_all(triples);
        assert forall|i: int|
            #![trigger triples[i]]
            0 <= i < triples.len() implies triple_at(all, 3 * i, triples[i]) by {
            if i < init.len() {
                assert(init[i] == triples[i]);
                assert(all[3 * i] == head[3 * i] && all[3 * i + 1] == head[3 * i + 1] && all[3 * i
                    + 2] == head[3 * i + 2]);
                assert(triple_at(head, 3 * i, init[i]));
            } else {
                let w = triples[i].wire();
                assert(all[3 * i] == w[0] && all[3 * i + 1] == w[1] && all[3 * i + 2] == w[2]);
            }
        }
    }
}

/// The caption SEI of a frame is read back: behind the NAL header, without the
/// escape bytes, it holds the frame's triples in order, the first 31 of them.
pub proof fn law_captions_are_read_back(triples: Seq<CcTriple>)
    ensures
        ({
            let sent = if triples.len() > 31 {
                triples.subrange(0, 31)
            } else {
                triples
            };
            &&& h264_sei(triples)[0] % 32 == 6
            &&& reads_as(unescaped(h264_sei(triples).skip(1)), sent)
            &&& (hevc_sei(triples)[0] / 2) % 64 == 39 && hevc_sei(triples)[1] % 8 == 1
            &&& reads_as(unescaped(hevc_sei(triples).skip(2)), sent)
        }),
{
    let sent = if triples.len() > 31 {
        triples.subrange(0, 31)
    } else {
        triples
    };
    assert(carried(triples) =~= sent);
    lemma_wire_all(sent);
    let n = sent.len() as int;
    let body = wire_all(sent);
    let payload = a53(triples);
    assert(payload.len() == 11 + 3 * n);
    let b = sei_message(triples);
    assert(size_bytes(payload.len()) =~= seq![(11 + 3 * n) as u8]);
    assert(b =~= seq![4u8, (11 + 3 * n) as u8] + payload + seq![0x80u8]);
    assert(b.subrange(2, 10) =~= seq![0xB5u8, 0x00, 0x31, 0x47, 0x41, 0x39, 0x34, 0x03]);
    assert forall|i: int|
        #![trigger sent[i]]
        0 <= i < n implies triple_at(b, 12 + 3 * i, sent[i]) by {
        assert(b[12 + 3 * i] == body[3 * i] && b[12 + 3 * i + 1] == body[3 * i + 1] && b[12 + 3 * i
            + 2] == body[3 * i + 2]);
        assert(triple_at(body, 3 * i, sent[i]));
    }
    assert(reads_as(b, sent));
    law_escape_is_undone(b);
    assert(h264_sei(triples).skip(1) =~= escaped(b));
    assert(hevc_sei(triples).skip(2) =~= escaped(b));
}

/// Sums of samples add up.
pub proof fn law_samples_add_up(a: Seq<i16>, b: Seq<i16>, x: i16)
    ensures
        total(a + b) == total(a) + total(b),
        total(seq![x]) == x,
    decreases b.len(),
{
    assert(seq![x].drop_last() =~= seq![]);
    assert(total(seq![x].drop_last()) == 0);
    if b.len() == 0 {
        assert(a + b =~= a);
    } else {
        law_samples_add_up(a, b.drop_last(), x);
        assert((a + b).drop_last() =~= a + b.drop_last());
    }
}

/// A downmixed sample is the mean of its channels without the fraction: less than
/// one away from it, and no further from zero.
pub proof fn law_downmix_is_the_mean(samples: Seq<i16>, channels: nat, i: int)
    requires
        channels > 1,
        0 <= i < samples.len() / channels,
    ensures
        ({
            let frame = samples.subrange(i * channels, (i + 1) * channels);
            let sum = total(frame);
            let mean = mono(samples, channels, None)[i] as int;
            &&& frame.len() == channels
            &&& sum >= 0 ==> 0 <= sum - mean * channels < channels && mean >= 0
            &&& sum <= 0 ==> 0 <= mean * channels - sum < channels && mean <= 0
        }),
{
    let frame = samples.subrange(i * channels, (i + 1) * channels);
    assert((i + 1) * channels <= samples.len() && i * channels >= 0 && (i + 1) * channels - i
        * channels == channels) by (nonlinear_arith)
        requires
            0 <= i < samples.len() / channels,
            channels > 1,
    ;
    assert(frame.len() == channels);
    crate::audio::law_average_lies_within(frame, i16::MIN, i16::MAX);
    let sum = total(frame);
    let m = if sum >= 0 {
        sum
    } else {
        -sum
    };
    let q = m / channels as int;
    assert(0 <= m - q * channels < channels && q >= 0) by (nonlinear_arith)
        requires
            q == m / channels as int,
            m >= 0,
            channels > 1,
    ;
    assert((-q) * channels == -(q * channels)) by (nonlinear_arith);
    assert(mixed(frame, None) == whole_part(sum, channels as int));
    assert(mono(samples, channels, None)[i] == mixed(frame, None));
}

/// A WAVE file is walked chunk by chunk, each padded to an even length. A format
/// chunk gives the byte rate, the samples are what is there of the data chunk, and
/// chunks of other kinds change nothing.
pub proof fn law_wave_chunks_are_walked(d: Seq<u8>, i: int, rate: u32)
    requires
        12 <= i,
        i + 8 <= d.len(),
    ensures
        ({
            let size = d[i + 4] + d[i + 5] * 256 + d[i + 6] * 65_536 + d[i + 7] * 16_777_216;
            let next = i + 8 + size + size % 2;
            let is_fmt = d.subrange(i, i + 4) == seq![0x66u8, 0x6D, 0x74, 0x20] && i + 20
                <= d.len();
            let is_data = d.subrange(i, i + 4) == seq![0x64u8, 0x61, 0x74, 0x61];
            let left = d.len() - i - 8;
            &&& is_data && rate > 0 && d.len() <= usize::MAX ==> chunks_from(d, i, rate) == Ok::<
                WavData,
                WavError,
            >(
                WavData {
                    size: (if size < left {
                        size
                    } else {
                        left
                    }) as usize,
                    byte_rate: rate,
                },
            )
            &&& is_data && rate == 0 ==> chunks_from(d, i, rate) == Err::<WavData, WavError>(
                WavError::DataBeforeFormat,
            )
            &&& is_fmt && next <= d.len() ==> chunks_from(d, i, rate) == chunks_from(
                d,
                next,
                (d[i + 16] + d[i + 17] * 256 + d[i + 18] * 65_536 + d[i + 19]
                    * 16_777_216) as u32,
            )
            &&& !is_data && !is_fmt && next <= d.len() ==> chunks_from(d, i, rate) == chunks_from(
                d,
                next,
                rate,
            )
            &&& !is_data && next > d.len() ==> chunks_from(d, i, rate) == Err::<WavData, WavError>(
                WavError::NoData,
            )
        }),
{
    let tag = d.subrange(i, i + 4);
    let fmt = seq![0x66u8, 0x6D, 0x74, 0x20];
    let data = seq![0x64u8, 0x61, 0x74, 0x61];
    assert(tag[0] == d[i] && tag[1] == d[i + 1] && tag[2] == d[i + 2] && tag[3] == d[i + 3]);
    if tag[0] == 0x66 && tag[1] == 0x6D && tag[2] == 0x74 && tag[3] == 0x20 {
        assert(tag =~= fmt);
    }
    if tag[0] == 0x64 && tag[1] == 0x61 && tag[2] == 0x74 && tag[3] == 0x61 {
        assert(tag =~= data);
    }
    assert(fmt[0] == 0x66 && fmt[1] == 0x6D && fmt[2] == 0x74 && fmt[3] == 0x20);
    assert(data[0] == 0x64 && data[1] == 0x61 && data[2] == 0x74 && data[3] == 0x61);
    assert(le32(d, i + 4) == d[i + 4] + d[i + 5] * 256 + d[i + 6] * 65_536 + d[i + 7]
        * 16_777_216);
    assert(i + 20 <= d.len() ==> le32(d, i + 16) == d[i + 16] + d[i + 17] * 256 + d[i + 18]
        * 65_536 + d[i + 19] * 16_777_216);
}

/// A file that does not begin with RIFF, four bytes and WAVE is refused, and only
/// such a file is.
pub proof fn law_other_files_are_refused(d: Seq<u8>)
    ensures
        d.len() >= 12 && d.subrange(0, 4) == seq![0x52u8, 0x49, 0x46, 0x46] && d.subrange(8, 12)
            == seq![0x57u8, 0x41, 0x56, 0x45] ==> wav_header(d) == chunks_from(d, 12, 0),
        !(d.len() >= 12 && d.subrange(0, 4) == seq![0x52u8, 0x49, 0x46, 0x46] && d.subrange(8, 12)
            == seq![0x57u8, 0x41, 0x56, 0x45]) ==> wav_header(d) == Err::<WavData, WavError>(
            WavError::NotWave,
        ),
{
    if d.len() >= 12 {
        let a = d.subrange(0, 4);
        let b = d.subrange(8, 12);
        let riff = seq![0x52u8, 0x49, 0x46, 0x46];
        let wave = seq![0x57u8, 0x41, 0x56, 0x45];
        assert(a[0] == d[0] && a[1] == d[1] && a[2] == d[2] && a[3] == d[3]);
        assert(b[0] == d[8] && b[1] == d[9] && b[2] == d[10] && b[3] == d[11]);
        if d[0] == 0x52 && d[1] == 0x49 && d[2] == 0x46 && d[3] == 0x46 {
            assert(a =~= riff);
        }
        if d[8] == 0x57 && d[9] == 0x41 && d[10] == 0x56 && d[11] == 0x45 {
            assert(b =~= wave);
        }
        assert(riff[0] == 0x52 && riff[1] == 0x49 && riff[2] == 0x46 && riff[3] == 0x46);
        assert(wave[0] == 0x57 && wave[1] == 0x41 && wave[2] == 0x56 && wave[3] == 0x45);
    }
}

} // verus!
