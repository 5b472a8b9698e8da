//! What holds of the media pipelines as a whole.
use vstd::prelude::*;

use crate::decimal::decimal;
use crate::lanes::Track;
use crate::media::{
    all_elements, common_elements, input_elements, output_elements, outputs_elements, AudioPlan,
    Codec,
};
use crate::plan::{
    branch_drawing, caption_caps, caption_drawing, captioning, chain_links, encoder_parts,
    input_drawing, output_drawing, rate_of, sink_drawing, tap_drawing, track_parts, Captioning,
    Drawing, Made, Part,
};
use crate::url::{input_of, output_of, InputKind, OutputKind};

verus! {

/// The tracks of a caption pipeline stand one after the other, behind what they
/// share, and every link joins two elements.
spec fn in_order(c: Captioning, several: bool) -> bool {
    &&& c.drawing.sound()
    &&& c.drawing.parts.len() >= (if several {
        3int
    } else {
        1
    })
    &&& c.feeds.len() == c.ends.len()
    &&& forall|k: int|
        0 <= k < c.feeds.len() ==> 0 < (#[trigger] c.feeds[k]) < c.ends[k]
            < c.drawing.parts.len()
    &&& forall|j: int, k: int|
        #![trigger c.ends[j], c.feeds[k]]
        0 <= j < k < c.feeds.len() ==> c.ends[j] < c.feeds[k]
}

proof fn lemma_in_order(tracks: Seq<Track>, caps: Seq<char>, several: bool)
    ensures
        in_order(captioning(tracks, caps, several), several),
        captioning(tracks, caps, several).feeds.len() == tracks.len(),
    decreases tracks.len(),
{
    if tracks.len() > 0 {
        lemma_in_order(tracks.drop_last(), caps, several);
        let before = captioning(tracks.drop_last(), caps, several);
        let t = tracks.last();
        let chain = track_parts(t, caps, several);
        let base = before.drawing.parts.len() as int;
        let after = before.with_track(t, caps, several);
        assert(encoder_parts(t).len() >= 1);
        assert(chain.len() >= 2);
        let links = chain_links(base, chain.len() as int);
        assert forall|k: int| 0 <= k < after.drawing.links.len() implies ({
            let l = #[trigger] after.drawing.links[k];
            0 <= l.0 < after.drawing.parts.len() && 0 <= l.1 < after.drawing.parts.len() && l.0
                != l.1
        }) by {
            let m = before.drawing.links.len() as int;
            if k < m {
                assert(after.drawing.links[k] == before.drawing.links[k]);
            } else if k < m + links.len() {
                assert(after.drawing.links[k] == links[k - m]);
            }
        }
        assert forall|j: int, k: int|
            #![trigger after.ends[j], after.feeds[k]]
            0 <= j < k < after.feeds.len() implies after.ends[j] < after.feeds[k] by {
            assert(after.ends[j] == before.ends[j]);
            assert(before.feeds[j] < before.ends[j]);
        }
        assert forall|k: int| 0 <= k < after.feeds.len() implies 0 < (#[trigger] after.feeds[k])
            < after.ends[k] < after.drawing.parts.len() by {
            if k < before.feeds.len() {
                assert(after.feeds[k] == before.feeds[k]);
            }
        }
    }
}

/// In a caption pipeline every link joins two elements, every track has a place
/// to be fed and an end, and no two tracks share an element.
pub proof fn law_tracks_are_kept_apart(tracks: Seq<Track>, fps: (i32, i32))
    requires
        caption_drawing(tracks, fps) is Ok,
    ensures
        ({
            let c = caption_drawing(tracks, fps)->Ok_0;
            &&& c.drawing.sound()
            &&& c.feeds.len() == tracks.len()
            &&& c.ends.len() == tracks.len()
            &&& forall|k: int|
                0 <= k < tracks.len() ==> 0 < (#[trigger] c.feeds[k]) < c.ends[k]
                    < c.drawing.parts.len()
            &&& forall|j: int, k: int|
                #![trigger c.ends[j], c.feeds[k]]
                0 <= j < k < tracks.len() ==> c.ends[j] < c.feeds[k]
        }),
{
    lemma_in_order(tracks, caption_caps(fps), tracks.len() > 1);
}

/// Where a track's data goes: into the multiplexer if there are several tracks,
/// else straight into the sink, which is the first element.
pub open spec fn leads_on(c: Captioning, k: int, several: bool) -> bool {
    exists|i: int|
        0 <= i < c.drawing.links.len() && {
            let l = #[trigger] c.drawing.links[i];
            l.0 == c.ends[k] && l.1 == (if several {
                1int
            } else {
                0
            })
        }
}

proof fn lemma_leads_on(tracks: Seq<Track>, caps: Seq<char>, several: bool, k: int)
    requires
        0 <= k < tracks.len(),
    ensures
        leads_on(captioning(tracks, caps, several), k, several),
    decreases tracks.len(),
{
    let before = captioning(tracks.drop_last(), caps, several);
    let after = captioning(tracks, caps, several);
    lemma_in_order(tracks.drop_last(), caps, several);
    if k == tracks.len() - 1 {
        let i = after.drawing.links.len() - 1;
        assert(after.drawing.links[i].0 == after.ends[k]);
    } else {
        lemma_leads_on(tracks.drop_last(), caps, several, k);
        let i = choose|i: int|
            0 <= i < before.drawing.links.len() && {
                let l = #[trigger] before.drawing.links[i];
                l.0 == before.ends[k] && l.1 == (if several {
                    1int
                } else {
                    0
                })
            };
        assert(after.drawing.links[i] == before.drawing.links[i]);
        assert(after.ends[k] == before.ends[k]);
    }
}

/// Every track of a caption pipeline ends in the multiplexer or the sink.
pub proof fn law_tracks_lead_to_the_sink(tracks: Seq<Track>, fps: (i32, i32), k: int)
    requires
        caption_drawing(tracks, fps) is Ok,
        0 <= k < tracks.len(),
    ensures
        leads_on(caption_drawing(tracks, fps)->Ok_0, k, tracks.len() > 1),
{
    lemma_leads_on(tracks, caption_caps(fps), tracks.len() > 1, k);
}

/// A list that begins with what every configuration needs.
spec fn has_common(names: Seq<Seq<char>>) -> bool {
    common_elements().is_prefix_of(names)
}

proof fn lemma_common(names: Seq<Seq<char>>)
    requires
        has_common(names),
    ensures
        names.contains("tsdemux"@),
        names.contains("h264parse"@),
        names.contains("h265parse"@),
        names.contains("h264ccinserter"@),
        names.contains("h265ccinserter"@),
        names.contains("mpegtsmux"@),
        names.contains("tttocea708"@),
        names.contains("tttocea608"@),
        names.contains("cea708mux"@),
        names.contains("ccconverter"@),
        names.contains("capssetter"@),
        names.contains("appsrc"@),
        names.contains("appsink"@),
        names.contains("queue"@),
        names.contains("tee"@),
        names.contains("aacparse"@),
        names.contains("mpegaudioparse"@),
        names.contains("ac3parse"@),
        names.contains("audioconvert"@),
        names.contains("audioresample"@),
        names.contains("capsfilter"@),
{
    let c = common_elements();
    assert forall|i: int| 0 <= i < c.len() implies names.contains(#[trigger] c[i]) by {
        assert(names[i] == c[i]);
    }
    assert(c[0] == "tsdemux"@ && c[1] == "h264parse"@ && c[2] == "h265parse"@);
    assert(c[3] == "h264ccinserter"@ && c[4] == "h265ccinserter"@ && c[5] == "mpegtsmux"@);
    assert(c[6] == "tttocea708"@ && c[7] == "tttocea608"@ && c[8] == "cea708mux"@);
    assert(c[9] == "ccconverter"@ && c[10] == "capssetter"@ && c[11] == "appsrc"@);
    assert(c[12] == "appsink"@ && c[13] == "queue"@ && c[14] == "tee"@ && c[15] == "aacparse"@);
    assert(c[16] == "mpegaudioparse"@ && c[17] == "ac3parse"@ && c[18] == "audioconvert"@);
    assert(c[19] == "audioresample"@ && c[21] == "capsfilter"@);
}

proof fn lemma_captions_made_of(
    tracks: Seq<Track>,
    caps: Seq<char>,
    several: bool,
    names: Seq<Seq<char>>,
)
    requires
        has_common(names),
    ensures
        captioning(tracks, caps, several).drawing.made_of(names),
    decreases tracks.len(),
{
    lemma_common(names);
    if tracks.len() > 0 {
        lemma_captions_made_of(tracks.drop_last(), caps, several, names);
        let before = captioning(tracks.drop_last(), caps, several).drawing;
        let after = captioning(tracks, caps, several).drawing;
        let t = tracks.last();
        let chain = track_parts(t, caps, several);
        let m = before.parts.len() as int;
        assert forall|k: int| 0 <= k < after.parts.len() implies ((#[trigger] after.parts[k]).made
            matches Made::Factory(f) ==> names.contains(f)) by {
            if k < m {
                assert(after.parts[k] == before.parts[k]);
            } else {
                let i = k - m;
                assert(after.parts[k] == chain[i]);
                let head: int = if several {
                    1
                } else {
                    0
                };
                if i >= head && i < chain.len() - 1 {
                    assert(chain[i] == encoder_parts(t)[i - head]);
                }
            }
        }
    }
}

proof fn lemma_output_listed(urls: Seq<Seq<char>>, k: int)
    requires
        outputs_elements(urls) is Ok,
        0 <= k < urls.len(),
    ensures
        output_of(urls[k]) is Some,
        forall|n: Seq<char>|
            output_elements(output_of(urls[k])->0).contains(n) ==> (#[trigger] outputs_elements(
                urls,
            )->Ok_0.contains(n)),
    decreases urls.len(),
{
    let list = outputs_elements(urls)->Ok_0;
    let head = outputs_elements(urls.drop_last())->Ok_0;
    let tail = output_elements(output_of(urls.last())->0);
    assert(list == head + tail);
    if k < urls.len() - 1 {
        lemma_output_listed(urls.drop_last(), k);
        assert(urls.drop_last()[k] == urls[k]);
        assert forall|n: Seq<char>|
            output_elements(output_of(urls[k])->0).contains(n) implies #[trigger] list.contains(
            n,
        ) by {
            assert(head.contains(n));
            let i = choose|i: int| 0 <= i < head.len() && head[i] == n;
            assert(list[i] == n);
        }
    } else {
        assert forall|n: Seq<char>|
            output_elements(output_of(urls[k])->0).contains(n) implies #[trigger] list.contains(
            n,
        ) by {
            let i = choose|i: int| 0 <= i < tail.len() && tail[i] == n;
            assert(list[head.len() + i] == n);
        }
    }
}

/// The elements that a configuration is checked for are all that its pipelines
/// are made of, whatever the codec, the tracks and the audio; the decoder of the
/// audio tap is checked on its own.
#[verifier::rlimit(30)]
pub proof fn law_checked_elements_suffice(
    input: Seq<char>,
    outputs: Seq<Seq<char>>,
    latency_ms: u32,
    output: int,
    codec: Codec,
    tracks: Seq<Track>,
    fps: (i32, i32),
    audio: AudioPlan,
)
    requires
        all_elements(input, outputs) is Ok,
        0 <= output < outputs.len(),
        caption_drawing(tracks, fps) is Ok,
        branch_drawing(audio) is Some,
    ensures
        ({
            let names = all_elements(input, outputs)->Ok_0;
            &&& input_drawing(input, latency_ms) is Ok
            &&& input_drawing(input, latency_ms)->Ok_0.made_of(names)
            &&& sink_drawing(outputs[output], latency_ms) is Ok
            &&& sink_drawing(outputs[output], latency_ms)->Ok_0.made_of(names)
            &&& output_drawing(codec).made_of(names)
            &&& caption_drawing(tracks, fps)->Ok_0.drawing.made_of(names)
            &&& branch_drawing(audio)->0.made_of(names)
            &&& tap_drawing().made_of(names.push("avdec_aac"@))
        }),
{
    let names = all_elements(input, outputs)->Ok_0;
    let kind = input_of(input)->0;
    let own = input_elements(kind);
    let list = outputs_elements(outputs)->Ok_0;
    let common = common_elements();
    assert(names == common + own + list);
    assert(has_common(names)) by {
        assert(common =~= names.subrange(0, common.len() as int));
    }
    lemma_common(names);
    lemma_captions_made_of(tracks, caption_caps(fps), tracks.len() > 1, names);
    lemma_output_listed(outputs, output);
    assert(output_drawing(codec).made_of(names));
    assert(branch_drawing(audio)->0.made_of(names));
    assert(tap_drawing().made_of(names.push("avdec_aac"@))) by {
        let more = names.push("avdec_aac"@);
        assert(common =~= more.subrange(0, common.len() as int));
        lemma_common(more);
        assert(more[names.len() as int] == "avdec_aac"@);
    }
    assert(input_drawing(input, latency_ms)->Ok_0.made_of(names)) by {
        if kind == InputKind::Rtp {
            assert(own[1] == "rtpmp2tdepay"@);
            assert(names[common.len() as int + 1] == "rtpmp2tdepay"@);
        }
    }
    assert(sink_drawing(outputs[output], latency_ms)->Ok_0.made_of(names)) by {
        if output_of(outputs[output])->0 == OutputKind::Rtmp {
            let rtmp = output_elements(OutputKind::Rtmp);
            assert(rtmp[0] == "flvmux"@ && rtmp[1] == "rtmp2sink"@);
            assert(rtmp.contains("flvmux"@) && rtmp.contains("rtmp2sink"@));
            assert(list.contains("flvmux"@) && list.contains("rtmp2sink"@));
            let i = choose|i: int| 0 <= i < list.len() && list[i] == "flvmux"@;
            let j = choose|j: int| 0 <= j < list.len() && list[j] == "rtmp2sink"@;
            assert(names[common.len() + own.len() + i] == "flvmux"@);
            assert(names[common.len() + own.len() + j] == "rtmp2sink"@);
        }
    }
}

/// A part of this name leads on to a part of that name.
pub open spec fn flows(d: Drawing, from: Seq<char>, to: Seq<char>) -> bool {
    exists|i: int|
        0 <= i < d.links.len() && {
            let l = #[trigger] d.links[i];
            &&& 0 <= l.0 < d.parts.len() && 0 <= l.1 < d.parts.len()
            &&& d.parts[l.0].name == from && d.parts[l.1].name == to
        }
}

/// The output graph leads the video through the parser and the caption inserter
/// of its codec, and the audio through a queue, into one transport stream.
pub proof fn law_outputs_carry_video_and_audio(codec: Codec)
    ensures
        ({
            let d = output_drawing(codec);
            &&& flows(d, "vsrc"@, "vparse"@)
            &&& flows(d, "vparse"@, "ccinsert"@)
            &&& flows(d, "ccinsert"@, "mux"@)
            &&& flows(d, "asrc"@, "aq"@)
            &&& flows(d, "aq"@, "mux"@)
            &&& flows(d, "mux"@, "tsout"@)
            &&& d.links.len() == 6
            &&& d.parts[2].name == "vparse"@ && d.parts[3].name == "ccinsert"@
            &&& codec == Codec::H264 ==> d.parts[2].made == Made::Factory("h264parse"@)
                && d.parts[3].made == Made::Factory("h264ccinserter"@)
            &&& codec == Codec::Hevc ==> d.parts[2].made == Made::Factory("h265parse"@)
                && d.parts[3].made == Made::Factory("h265ccinserter"@)
            &&& d.parts[4].made == Made::Factory("mpegtsmux"@)
        }),
{
    let d = output_drawing(codec);
    let l = d.links;
    assert(l[0] == (0int, 2int, ""@) && l[1] == (2int, 3int, ""@) && l[3] == (1int, 5int, ""@));
    assert(l[2].0 == 3 && l[2].1 == 4 && l[4].0 == 5 && l[4].1 == 4 && l[5].0 == 4 && l[5].1 == 6);
    assert(d.parts[0].name == "vsrc"@ && d.parts[1].name == "asrc"@ && d.parts[5].name == "aq"@);
    assert(d.parts[4].name == "mux"@ && d.parts[6].name == "tsout"@);
}

/// A setting that must be made.
pub open spec fn has_setting(p: Part, name: Seq<char>, value: Seq<char>) -> bool {
    p.settings.contains((name, value, false))
}

/// The encoder of a track is set to the track's mode, and on 708 to its service,
/// its 608 channel and its rows; 608 on CC3 is marked as field 1, and only that.
pub proof fn law_encoders_are_set_to_their_track(t: Track)
    ensures
        ({
            let parts = encoder_parts(t);
            match t {
                Track::Cea608 { field, mode } => {
                    &&& parts[0].made == Made::Factory("tttocea608"@)
                    &&& has_setting(parts[0], "mode"@, mode)
                    &&& parts.len() == (if field == 1 {
                        3nat
                    } else {
                        2
                    })
                    &&& field == 1 ==> has_setting(
                        parts[1],
                        "caps"@,
                        "closedcaption/x-cea-608,field=(int)1"@,
                    )
                    &&& parts.last().made == Made::Factory("ccconverter"@)
                },
                Track::Cea708 { service, channel, mode, rows } => {
                    &&& parts.len() == 1 && parts[0].made == Made::Factory("tttocea708"@)
                    &&& has_setting(parts[0], "mode"@, mode)
                    &&& has_setting(parts[0], "service-number"@, decimal(service as nat))
                    &&& has_setting(parts[0], "cea608-channel"@, decimal(channel as nat))
                    &&& has_setting(parts[0], "roll-up-rows"@, decimal(rows as nat))
                },
            }
        }),
{
    let parts = encoder_parts(t);
    match t {
        Track::Cea608 { field, mode } => {
            assert(parts[0].settings[0] == ("mode"@, mode, false));
            if field == 1 {
                assert(parts[1].settings[0] == (
                    "caps"@,
                    "closedcaption/x-cea-608,field=(int)1"@,
                    false,
                ));
            }
        },
        Track::Cea708 { service, channel, mode, rows } => {
            let s = parts[0].settings;
            assert(s[0] == ("mode"@, mode, false));
            assert(s[1] == ("service-number"@, decimal(service as nat), false));
            assert(s[2] == ("cea608-channel"@, decimal(channel as nat), false));
            assert(s[3] == ("roll-up-rows"@, decimal(rows as nat), false));
        },
    }
}

/// A stream without a usable frame rate counts as 30 frames a second.
pub proof fn law_unknown_rates_are_thirty(reported: Option<(i32, i32)>)
    ensures
        ({
            let (rate, known) = rate_of(reported);
            &&& known <==> reported is Some && (reported->0).0 > 0 && (reported->0).1 > 0
            &&& known ==> Some(rate) == reported
            &&& !known ==> rate.0 == 30 && rate.1 == 1
        }),
{
}

} // verus!
