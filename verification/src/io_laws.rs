//! What goes over the wires: audio in frames, messages in bytes, captions in the
//! video stream, and the addresses of inputs and outputs.
use vstd::prelude::*;

use crate::annexb::{begins_picture, captioned, pictures, sei, VideoCodec};
use crate::cc::CcTriple;
use crate::chars::{cut, find_in, join_with, lemma_find_from, stands_at};
use crate::config::Language;
use crate::ipc::{first_frame, frame_of, le, le_value, pcm_payload};
use crate::ipc::{sample_bits, sample_bytes, Content, FrameError};
use crate::run::{law_cutting_keeps_the_audio, source_of, targets_of, Partial};
use crate::url::{as_udp, base_hidden, hidden, input_of, output_of};
use crate::url::{InputKind, OutputKind};
use crate::url_laws::{free_of, law_split_undoes_join};

verus! {

/// Audio goes out in frames of 100 ms, each with its start. Audio that starts
/// within 20 ms of where the last ended goes on from there; other audio starts
/// anew at its own time, behind a short frame with what was left.
pub proof fn law_audio_keeps_its_times(p: Partial, start_ms: int, samples: Seq<i16>)
    requires
        p.wf(),
        p.buf.len() > 0,
    ensures
        ({
            let end = p.start_ms + p.buf.len() as int / 16;
            let jump = start_ms < end - 20 || start_ms > end + 20;
            let (frames, rest) = p.push(start_ms, samples);
            &&& jump ==> {
                &&& frames.len() >= 1 && frames[0] == (p.start_ms, p.buf)
                &&& forall|i: int|
                    1 <= i < frames.len() ==> (#[trigger] frames[i]).1.len() == 1600 && frames[i].0
                        == start_ms + 100 * (i - 1)
                &&& rest.start_ms == start_ms + 100 * (frames.len() - 1)
            }
            &&& !jump ==> {
                &&& forall|i: int|
                    0 <= i < frames.len() ==> (#[trigger] frames[i]).1.len() == 1600 && frames[i].0
                        == p.start_ms + 100 * i
                &&& rest.start_ms == p.start_ms + 100 * frames.len()
            }
            &&& rest.buf.len() < 1600
        }),
{
    let anew = Partial { start_ms, buf: samples };
    let on = Partial { start_ms: p.start_ms, buf: p.buf + samples };
    law_cutting_keeps_the_audio(anew);
    law_cutting_keeps_the_audio(on);
    let (frames, rest) = p.push(start_ms, samples);
    if p.jumps(start_ms) {
        let full = anew.cut().0;
        assert(frames =~= seq![(p.start_ms, p.buf)] + full);
        assert forall|i: int| 1 <= i < frames.len() implies (#[trigger] frames[i]).1.len() == 1600
            && frames[i].0 == start_ms + 100 * (i - 1) by {
            assert(frames[i] == full[i - 1]);
        }
    } else {
        assert(frames =~= on.cut().0);
    }
}

/// Audio that comes when nothing is left starts at its own time.
pub proof fn law_fresh_audio_starts_anew(p: Partial, start_ms: int, samples: Seq<i16>)
    requires
        p.buf.len() == 0,
    ensures
        ({
            let (frames, rest) = p.push(start_ms, samples);
            &&& forall|i: int|
                0 <= i < frames.len() ==> (#[trigger] frames[i]).1.len() == 1600 && frames[i].0
                    == start_ms + 100 * i
            &&& rest.start_ms == start_ms + 100 * frames.len()
            &&& frames.len() == samples.len() / 1600
        }),
{
    let anew = Partial { start_ms, buf: samples };
    law_cutting_keeps_the_audio(anew);
    lemma_frame_count(anew);
    let (frames, rest) = p.push(start_ms, samples);
    assert(frames =~= anew.cut().0);
}

proof fn lemma_frame_count(p: Partial)
    ensures
        p.cut().0.len() == p.buf.len() / 1600,
    decreases p.buf.len(),
{
    if p.buf.len() >= 1600 {
        let next = Partial { start_ms: p.start_ms + 100, buf: p.buf.skip(1600) };
        lemma_frame_count(next);
    }
}

/// The source language is the first that is marked, or English; all others are
/// translated into, in order.
pub proof fn law_languages_have_their_parts(langs: Seq<Language>, more: Seq<Language>, i: int)
    requires
        0 <= i < langs.len(),
        forall|k: int| 0 <= k < i ==> !(#[trigger] langs[k]).source,
    ensures
        langs[i].source ==> source_of(langs) == langs[i].code@,
        (forall|k: int| 0 <= k < langs.len() ==> !(#[trigger] langs[k]).source) ==> source_of(
            langs,
        ) == "en"@,
        targets_of(langs + more) == targets_of(langs) + targets_of(more),
        langs.len() == 1 && !langs[0].source ==> targets_of(langs) == seq![langs[0].code@],
        langs.len() == 1 && langs[0].source ==> targets_of(langs).len() == 0,
{
    lemma_source(langs, i);
    lemma_targets_add(langs, more);
    if langs.len() == 1 {
        assert(langs.drop_last() =~= seq![]);
        assert(targets_of(langs.drop_last()) =~= seq![]);
        assert(langs.last() == langs[0]);
    }
}

proof fn lemma_source(langs: Seq<Language>, i: int)
    requires
        0 <= i < langs.len(),
        forall|k: int| 0 <= k < i ==> !(#[trigger] langs[k]).source,
    ensures
        langs[i].source ==> source_of(langs) == langs[i].code@,
        (forall|k: int| 0 <= k < langs.len() ==> !(#[trigger] langs[k]).source) ==> source_of(
            langs,
        ) == "en"@,
    decreases langs.len(),
{
    let rest = langs.drop_first();
    if !langs[0].source {
        if rest.len() > 0 {
            let j = if i > 0 {
                i - 1
            } else {
                0
            };
            assert forall|k: int| 0 <= k < j implies !(#[trigger] rest[k]).source by {
                assert(rest[k] == langs[k + 1]);
            }
            lemma_source(rest, j);
            if forall|k: int| 0 <= k < langs.len() ==> !(#[trigger] langs[k]).source {
                assert forall|k: int| 0 <= k < rest.len() implies !(#[trigger] rest[k]).source by {
                    assert(rest[k] == langs[k + 1]);
                }
            }
        } else {
            assert(source_of(rest) == "en"@);
        }
    }
}

proof fn lemma_targets_add(a: Seq<Language>, b: Seq<Language>)
    ensures
        targets_of(a + b) == targets_of(a) + targets_of(b),
    decreases b.len(),
{
    if b.len() == 0 {
        assert(a + b =~= a);
        assert(targets_of(a) + targets_of(b) =~= targets_of(a));
    } else {
        lemma_targets_add(a, b.drop_last());
        assert((a + b).drop_last() =~= a + b.drop_last());
        assert(targets_of(a + b) =~= targets_of(a) + targets_of(b));
    }
}

/// A number in four bytes, the least significant first.
pub open spec fn four_bytes(b: Seq<u8>) -> int {
    b[0] + b[1] * 256 + b[2] * 65_536 + b[3] * 16_777_216
}

proof fn lemma_le_four(n: nat)
    requires
        n < 0x1_0000_0000,
    ensures
        le(n, 4).len() == 4,
        four_bytes(le(n, 4)) == n,
{
    reveal_with_fuel(le, 5);
    let b = le(n, 4);
    assert(b =~= seq![
        (n % 256) as u8,
        (n / 256 % 256) as u8,
        (n / 256 / 256 % 256) as u8,
        (n / 256 / 256 / 256 % 256) as u8,
    ]);
}

proof fn lemma_four_value(b: Seq<u8>)
    requires
        b.len() == 4,
    ensures
        le_value(b) == four_bytes(b),
{
    reveal_with_fuel(le_value, 5);
    assert(b.drop_first()[0] == b[1]);
    assert(b.drop_first().drop_first()[0] == b[2]);
    assert(b.drop_first().drop_first().drop_first()[0] == b[3]);
}

/// A message goes out as its length and one in four bytes, least significant
/// first, the number 1, and its text; audio as number 2, with eight bytes of time
/// before the samples.
pub proof fn law_frames_are_laid_out(c: Content)
    requires
        c matches Content::Message(json) ==> json.len() < 0x10_0000,
        c matches Content::Pcm(start_ms, samples) ==> samples.len() < 0x8_0000 - 4,
    ensures
        ({
            let b = frame_of(c);
            match c {
                Content::Message(json) => {
                    &&& b.len() == json.len() + 5
                    &&& four_bytes(b) == json.len() + 1
                    &&& b[4] == 1
                    &&& b.skip(5) == json
                },
                Content::Pcm(start_ms, samples) => {
                    &&& b.len() == 13 + 2 * samples.len()
                    &&& four_bytes(b) == 9 + 2 * samples.len()
                    &&& b[4] == 2
                    &&& b.subrange(5, 13) == le(start_ms as nat, 8)
                    &&& forall|i: int|
                        #![trigger samples[i]]
                        0 <= i < samples.len() ==> b[13 + 2 * i] + 256 * b[14 + 2 * i] == (
                        if samples[i] >= 0 {
                            samples[i] as int
                        } else {
                            samples[i] + 65_536
                        })
                },
            }
        }),
{
    match c {
        Content::Message(json) => {
            lemma_le_four(json.len() + 1);
            let b = frame_of(c);
            let n = le(json.len() + 1, 4);
            assert(b[0] == n[0] && b[1] == n[1] && b[2] == n[2] && b[3] == n[3]);
            assert(b.skip(5) =~= json);
        },
        Content::Pcm(start_ms, samples) => {
            lemma_sample_bytes(samples);
            lemma_le_len(start_ms as nat, 8);
            let payload = pcm_payload(start_ms, samples);
            lemma_le_four(payload.len() + 1);
            let b = frame_of(c);
            let n = le(payload.len() + 1, 4);
            assert(b[0] == n[0] && b[1] == n[1] && b[2] == n[2] && b[3] == n[3]);
            assert(b.subrange(5, 13) =~= le(start_ms as nat, 8));
            let body = sample_bytes(samples);
            assert forall|i: int|
                #![trigger samples[i]]
                0 <= i < samples.len() implies b[13 + 2 * i] + 256 * b[14 + 2 * i] == (
            if samples[i] >= 0 {
                samples[i] as int
            } else {
                samples[i] + 65_536
            }) by {
                assert(b[13 + 2 * i] == body[2 * i]);
                assert(b[14 + 2 * i] == body[2 * i + 1]);
                assert(body[2 * i] + 256 * body[2 * i + 1] == sample_bits(samples[i]));
            }
        },
    }
}

proof fn lemma_le_len(n: nat, count: nat)
    ensures
        le(n, count).len() == count,
    decreases count,
{
    if count > 0 {
        lemma_le_len(n / 256, (count - 1) as nat);
    }
}

proof fn lemma_sample_bytes(samples: Seq<i16>)
    ensures
        sample_bytes(samples).len() == 2 * samples.len(),
        forall|i: int|
            #![trigger samples[i]]
            0 <= i < samples.len() ==> sample_bytes(samples)[2 * i] + 256 * sample_bytes(samples)[2
                * i + 1] == sample_bits(samples[i]),
    decreases samples.len(),
{
    if samples.len() > 0 {
        let init = samples.drop_last();
        lemma_sample_bytes(init);
        let x = sample_bits(samples.last());
        reveal_with_fuel(le, 3);
        assert(le(x, 2) =~= seq![(x % 256) as u8, (x / 256 % 256) as u8]);
        let head = sample_bytes(init);
        let all = sample_bytes(samples);
        assert(all =~= head + seq![(x % 256) as u8, (x / 256 % 256) as u8]);
        assert forall|i: int|
            #![trigger samples[i]]
            0 <= i < samples.len() implies all[2 * i] + 256 * all[2 * i + 1] == sample_bits(
            samples[i],
        ) by {
            if i < init.len() {
                assert(init[i] == samples[i]);
                assert(all[2 * i] == head[2 * i] && all[2 * i + 1] == head[2 * i + 1]);
            } else {
                assert(all[2 * i] == (x % 256) as u8 && all[2 * i + 1] == (x / 256 % 256) as u8);
                assert(x < 65_536);
            }
        }
    }
}

/// What cannot be a frame is refused: an end before the length, a length of zero
/// or more than a mebibyte, an end before the frame is complete, another number
/// than 1 and 2, audio shorter than its time or with half a sample.
pub proof fn law_bad_frames_are_refused(data: Seq<u8>)
    ensures
        data.len() < 4 ==> first_frame(data) == Err::<(Content, int), FrameError>(
            FrameError::Closed,
        ),
        data.len() >= 4 ==> {
            let n = four_bytes(data);
            &&& n == 0 || n > 0x10_0000 ==> first_frame(data) == Err::<(Content, int), FrameError>(
                FrameError::BadLength(n as usize),
            )
            &&& 0 < n <= 0x10_0000 && data.len() < 4 + n ==> first_frame(data) == Err::<
                (Content, int),
                FrameError,
            >(FrameError::Truncated)
            &&& 0 < n <= 0x10_0000 && data.len() >= 4 + n ==> {
                &&& data[4] == 1 ==> first_frame(data) == Ok::<(Content, int), FrameError>(
                    (Content::Message(data.subrange(5, 4 + n)), 4 + n),
                )
                &&& data[4] == 2 && (n < 9 || n % 2 == 0) ==> first_frame(data) == Err::<
                    (Content, int),
                    FrameError,
                >(FrameError::BadPcm)
                &&& data[4] == 2 && n >= 9 && n % 2 == 1 ==> first_frame(data) is Ok
                &&& data[4] != 1 && data[4] != 2 ==> first_frame(data) == Err::<
                    (Content, int),
                    FrameError,
                >(FrameError::BadKind(data[4]))
            }
        },
{
    if data.len() >= 4 {
        let b = data.take(4);
        lemma_four_value(b);
        assert(four_bytes(b) == four_bytes(data));
    }
}

/// Every unit of a stream is kept, in order, and in front of every picture comes
/// the caption data whose turn it is, and nowhere else.
pub proof fn law_captions_precede_their_pictures(
    codec: VideoCodec,
    list: Seq<Seq<u8>>,
    captions: Seq<Seq<CcTriple>>,
    i: int,
)
    requires
        0 <= i < list.len(),
    ensures
        ({
            let out = captioned(codec, list, captions);
            let before = pictures(codec, list.take(i)) as int;
            let at = i + pictures(codec, list.take(i + 1));
            &&& out.len() == list.len() + pictures(codec, list)
            &&& 0 <= at < out.len() && out[at] == list[i]
            &&& begins_picture(codec, list[i]) ==> at == i + before + 1 && out[at - 1] == sei(
                codec,
                captions[before],
            )
            &&& !begins_picture(codec, list[i]) ==> at == i + before
        }),
    decreases list.len(),
{
    let init = list.drop_last();
    let out = captioned(codec, list, captions);
    let head = captioned(codec, init, captions);
    lemma_captioned_len(codec, init, captions);
    lemma_captioned_len(codec, list, captions);
    assert(list.take(i + 1).drop_last() =~= list.take(i));
    assert(list.take(i + 1).last() == list[i]);
    if i < init.len() {
        law_captions_precede_their_pictures(codec, init, captions, i);
        assert(init.take(i) =~= list.take(i));
        assert(init.take(i + 1) =~= list.take(i + 1));
        assert(init[i] == list[i]);
        let at = i + pictures(codec, list.take(i + 1));
        assert(out[at] == head[at]);
        if begins_picture(codec, list[i]) {
            assert(out[at - 1] == head[at - 1]);
        }
    } else {
        assert(list.take(i + 1) =~= list);
        assert(list.take(i) =~= init);
    }
}

proof fn lemma_captioned_len(
    codec: VideoCodec,
    list: Seq<Seq<u8>>,
    captions: Seq<Seq<CcTriple>>,
)
    ensures
        captioned(codec, list, captions).len() == list.len() + pictures(codec, list),
    decreases list.len(),
{
    if list.len() > 0 {
        lemma_captioned_len(codec, list.drop_last(), captions);
    }
}

/// A picture begins with a slice, of type 1 to 5 in H.264 and below 32 in HEVC,
/// that says it is the first one.
pub proof fn law_pictures_begin_with_a_first_slice(nal: Seq<u8>)
    ensures
        begins_picture(VideoCodec::H264, nal) <==> nal.len() >= 2 && 1 <= nal[0] % 32 <= 5
            && nal[1] / 128 == 1,
        begins_picture(VideoCodec::Hevc, nal) <==> nal.len() >= 3 && (nal[0] / 2) % 64 < 32
            && nal[2] / 128 == 1,
{
    if nal.len() >= 2 {
        let b = nal[0];
        assert(b & 0x1F == b % 32 && (b >> 1) & 0x3F == (b / 2) % 64) by (bit_vector);
    }
}

proof fn lemma_scheme(scheme: Seq<char>, rest: Seq<char>)
    requires
        free_of(scheme, ':'),
    ensures
        cut(scheme + "://"@ + rest, "://"@) == Some((scheme, rest)),
{
    reveal_strlit("://");
    let mark = "://"@;
    let s = scheme + mark + rest;
    let n = scheme.len() as int;
    assert(s.subrange(n, n + 3) =~= mark);
    assert(stands_at(s, mark, n));
    assert forall|j: int| 0 <= j < n implies !#[trigger] stands_at(s, mark, j) by {
        assert(s[j] == scheme[j]);
        if stands_at(s, mark, j) {
            assert(s.subrange(j, j + 3)[0] == s[j]);
        }
    }
    lemma_find_from(s, mark, 0);
    assert(find_in(s, mark) == Some(n));
    assert(s.take(n) =~= scheme);
    assert(s.skip(n + 3) =~= rest);
}

/// Inputs are SRT, UDP and RTP, outputs SRT, UDP and RTMP with or without TLS, by
/// what stands before the colon.
pub proof fn law_schemes_tell_the_transport(rest: Seq<char>)
    ensures
        input_of("srt"@ + "://"@ + rest) == Some(InputKind::Srt),
        input_of("udp"@ + "://"@ + rest) == Some(InputKind::Udp),
        input_of("rtp"@ + "://"@ + rest) == Some(InputKind::Rtp),
        input_of("rtmp"@ + "://"@ + rest) is None,
        input_of("file"@ + "://"@ + rest) is None,
        output_of("srt"@ + "://"@ + rest) == Some(OutputKind::Srt),
        output_of("udp"@ + "://"@ + rest) == Some(OutputKind::Udp),
        output_of("rtmp"@ + "://"@ + rest) == Some(OutputKind::Rtmp),
        output_of("rtmps"@ + "://"@ + rest) == Some(OutputKind::Rtmp),
        output_of("rtp"@ + "://"@ + rest) is None,
        output_of("file"@ + "://"@ + rest) is None,
{
    reveal_strlit("srt");
    reveal_strlit("udp");
    reveal_strlit("rtp");
    reveal_strlit("rtmp");
    reveal_strlit("rtmps");
    reveal_strlit("file");
    lemma_scheme("srt"@, rest);
    lemma_scheme("udp"@, rest);
    lemma_scheme("rtp"@, rest);
    lemma_scheme("rtmp"@, rest);
    lemma_scheme("rtmps"@, rest);
    lemma_scheme("file"@, rest);
    assert("srt"@[0] == 's' && "udp"@[0] == 'u' && "rtp"@[1] == 't' && "rtp"@[0] == 'r');
    assert("rtp"@.len() == 3 && "rtmp"@.len() == 4 && "file"@[0] == 'f' && "file"@.len() == 4);
    assert("rtmp"@[0] == 'r');
}

/// The key of an RTMP stream never shows: of an address with a host, an
/// application and a key, the key is hidden, and of no other address.
pub proof fn law_stream_keys_are_hidden(host: Seq<char>, app: Seq<char>, key: Seq<char>)
    requires
        free_of(host, '/') && free_of(app, '/') && free_of(key, '/'),
    ensures
        base_hidden("rtmp"@ + "://"@ + join_with(seq![host, app, key], '/')) == "rtmp"@ + "://"@
            + join_with(seq![host, app], '/') + "/***"@,
        base_hidden("rtmps"@ + "://"@ + join_with(seq![host, app, key], '/')) == "rtmps"@
            + "://"@ + join_with(seq![host, app], '/') + "/***"@,
        base_hidden("rtmp"@ + "://"@ + join_with(seq![host, app], '/')) == "rtmp"@ + "://"@
            + join_with(seq![host, app], '/'),
        base_hidden("srt"@ + "://"@ + join_with(seq![host, app, key], '/')) == "srt"@ + "://"@
            + join_with(seq![host, app, key], '/'),
{
    reveal_strlit("rtmp");
    reveal_strlit("rtmps");
    reveal_strlit("srt");
    let three = seq![host, app, key];
    let two = seq![host, app];
    assert forall|k: int| 0 <= k < three.len() implies free_of(#[trigger] three[k], '/') by {}
    assert forall|k: int| 0 <= k < two.len() implies free_of(#[trigger] two[k], '/') by {}
    law_split_undoes_join(three, '/');
    law_split_undoes_join(two, '/');
    assert(three.drop_last() =~= two);
    lemma_scheme("rtmp"@, join_with(three, '/'));
    lemma_scheme("rtmp"@, join_with(two, '/'));
    lemma_scheme("rtmps"@, join_with(three, '/'));
    lemma_scheme("srt"@, join_with(three, '/'));
    assert("srt"@[0] == 's' && "rtmp"@[0] == 'r' && "rtmps"@[0] == 'r');
}

/// A passphrase, a stream identifier and a key are hidden, other parameters are
/// left as they are.
pub proof fn law_secret_parameters_are_hidden(key: Seq<char>, value: Seq<char>)
    requires
        free_of(key, '='),
    ensures
        key == "passphrase"@ || key == "streamid"@ || key == "key"@ ==> hidden(
            key.push('=') + value,
        ) == key + "=***"@,
        key != "passphrase"@ && key != "streamid"@ && key != "key"@ ==> hidden(
            key.push('=') + value,
        ) == key.push('=') + value,
{
    reveal_strlit("=");
    let mark = "="@;
    assert(mark =~= seq!['=']);
    let s = key.push('=') + value;
    let n = key.len() as int;
    assert(s.subrange(n, n + 1) =~= mark);
    assert(stands_at(s, mark, n));
    assert forall|j: int| 0 <= j < n implies !#[trigger] stands_at(s, mark, j) by {
        assert(s[j] == key[j]);
        if stands_at(s, mark, j) {
            assert(s.subrange(j, j + 1)[0] == s[j]);
        }
    }
    lemma_find_from(s, mark, 0);
    assert(find_in(s, mark) == Some(n));
    assert(s.take(n) =~= key);
}

/// An RTP address is listened to as UDP on the same host and port.
pub proof fn law_rtp_is_received_over_udp(host: Seq<char>)
    requires
        free_of(host, '?'),
    ensures
        as_udp("rtp"@ + "://"@ + host) == "udp://"@ + host,
        as_udp("udp"@ + "://"@ + host) == "udp://"@ + host,
{
    reveal_strlit("rtp");
    reveal_strlit("udp");
    reveal_strlit("://");
    reveal_strlit("?");
    lemma_scheme("rtp"@, host);
    lemma_scheme("udp"@, host);
    let a = "rtp"@ + "://"@ + host;
    let b = "udp"@ + "://"@ + host;
    lemma_no_mark(a);
    lemma_no_mark(b);
}

proof fn lemma_no_mark(s: Seq<char>)
    requires
        free_of(s, '?'),
    ensures
        cut(s, "?"@) is None,
{
    reveal_strlit("?");
    lemma_find_from(s, "?"@, 0);
    if let Some(i) = find_in(s, "?"@) {
        assert(s.subrange(i, i + 1)[0] == s[i]);
        assert("?"@[0] == '?');
    }
}

} // verus!
