//! The media pipelines as plain values: which elements they have, how each is
//! set, and how they are linked.
use vstd::prelude::*;

use crate::decimal::{decimal, push_decimal, push_signed, push_text, signed_decimal};
use crate::lanes::{Track, TrackCfg};
use crate::media::{AudioParser, AudioPlan, Codec};
use crate::url::{
    as_udp, input_kind, input_of, output_kind, output_of, redacted, srt_uri, udp_uri, with_latency,
    InputKind, OutputKind,
};

verus! {

/// How an element is made.
#[derive(Clone, Debug, PartialEq, Eq)]
pub enum Maker {
    /// By the name of its factory.
    Factory(String),
    /// As a source of a URI.
    Source(String),
    /// As a sink of a URI.
    Sink(String),
}

/// How an element is made, as a mathematical value.
pub enum Made {
    Factory(Seq<char>),
    Source(Seq<char>),
    Sink(Seq<char>),
}

impl View for Maker {
    type V = Made;

    open spec fn view(&self) -> Made {
        match *self {
            Maker::Factory(name) => Made::Factory(name@),
            Maker::Source(uri) => Made::Source(uri@),
            Maker::Sink(uri) => Made::Sink(uri@),
        }
    }
}

/// A property and its value, in GStreamer's text form.
#[derive(Clone, Debug, PartialEq, Eq)]
pub struct Setting {
    pub name: String,
    pub value: String,
    /// Left out if the element has no such property.
    pub optional: bool,
}

impl View for Setting {
    type V = (Seq<char>, Seq<char>, bool);

    open spec fn view(&self) -> (Seq<char>, Seq<char>, bool) {
        (self.name@, self.value@, self.optional)
    }
}

/// An element of a pipeline.
#[derive(Clone, Debug, PartialEq, Eq)]
pub struct Element {
    pub maker: Maker,
    /// Its name, or nothing for a name of GStreamer's choice.
    pub name: String,
    pub settings: Vec<Setting>,
}

/// An element as a mathematical value.
#[verifier::ext_equal]
pub struct Part {
    pub made: Made,
    pub name: Seq<char>,
    pub settings: Seq<(Seq<char>, Seq<char>, bool)>,
}

/// What the settings of a list say.
pub open spec fn setting_list(list: Seq<Setting>) -> Seq<(Seq<char>, Seq<char>, bool)> {
    list.map_values(|s: Setting| s@)
}

impl View for Element {
    type V = Part;

    open spec fn view(&self) -> Part {
        Part { made: self.maker@, name: self.name@, settings: setting_list(self.settings@) }
    }
}

/// An element of a factory, with nothing set.
pub open spec fn part(factory: Seq<char>, name: Seq<char>) -> Part {
    Part { made: Made::Factory(factory), name, settings: seq![] }
}

impl Part {
    /// With one more property set.
    pub open spec fn set(self, name: Seq<char>, value: Seq<char>) -> Part {
        Part { settings: self.settings.push((name, value, false)), ..self }
    }

    /// With one more property set, if the element has it.
    pub open spec fn try_set(self, name: Seq<char>, value: Seq<char>) -> Part {
        Part { settings: self.settings.push((name, value, true)), ..self }
    }
}

impl Element {
    fn made(maker: Maker, name: &str) -> (r: Self)
        ensures
            r@ == (Part { made: maker@, name: name@, settings: seq![] }),
    {
        let r = Element { maker, name: name.to_owned(), settings: Vec::new() };
        assert(r@.settings =~= seq![]);
        r
    }

    fn new(factory: &str, name: &str) -> (r: Self)
        ensures
            r@ == part(factory@, name@),
    {
        Element::made(Maker::Factory(factory.to_owned()), name)
    }

    fn set(self, name: &str, value: &str) -> (r: Self)
        ensures
            r@ == self@.set(name@, value@),
    {
        let mut e = self;
        e.settings.push(Setting { name: name.to_owned(), value: value.to_owned(), optional: false });
        assert(e@.settings =~= self@.set(name@, value@).settings);
        e
    }

    fn try_set(self, name: &str, value: &str) -> (r: Self)
        ensures
            r@ == self@.try_set(name@, value@),
    {
        let mut e = self;
        e.settings.push(Setting { name: name.to_owned(), value: value.to_owned(), optional: true });
        assert(e@.settings =~= self@.try_set(name@, value@).settings);
        e
    }
}

/// A link from one element of a pipeline to another.
#[derive(Clone, Debug, PartialEq, Eq)]
pub struct Link {
    pub from: usize,
    pub to: usize,
    /// The pad to ask the second element for, or nothing for one that it has.
    pub pad: String,
}

impl View for Link {
    type V = (int, int, Seq<char>);

    open spec fn view(&self) -> (int, int, Seq<char>) {
        (self.from as int, self.to as int, self.pad@)
    }
}

/// A pipeline: its elements, and their links in the order in which they are made.
#[derive(Clone, Debug, PartialEq, Eq)]
pub struct Graph {
    pub elements: Vec<Element>,
    pub links: Vec<Link>,
}

/// A pipeline as a mathematical value.
#[verifier::ext_equal]
pub struct Drawing {
    pub parts: Seq<Part>,
    pub links: Seq<(int, int, Seq<char>)>,
}

/// The elements of a list.
pub open spec fn part_list(list: Seq<Element>) -> Seq<Part> {
    list.map_values(|e: Element| e@)
}

/// The links of a list.
pub open spec fn link_list(list: Seq<Link>) -> Seq<(int, int, Seq<char>)> {
    list.map_values(|l: Link| l@)
}

impl View for Graph {
    type V = Drawing;

    open spec fn view(&self) -> Drawing {
        Drawing { parts: part_list(self.elements@), links: link_list(self.links@) }
    }
}

impl Drawing {
    /// Every link joins two elements of the pipeline.
    pub open spec fn sound(self) -> bool {
        forall|k: int|
            0 <= k < self.links.len() ==> {
                let l = #[trigger] self.links[k];
                0 <= l.0 < self.parts.len() && 0 <= l.1 < self.parts.len() && l.0 != l.1
            }
    }

    /// Every element that is made by the name of its factory is one of `names`.
    pub open spec fn made_of(self, names: Seq<Seq<char>>) -> bool {
        forall|k: int|
            0 <= k < self.parts.len() ==> ((#[trigger] self.parts[k]).made matches Made::Factory(f)
                ==> names.contains(f))
    }
}

impl Graph {
    fn new() -> (r: Self)
        ensures
            r@ == (Drawing { parts: seq![], links: seq![] }),
    {
        let r = Graph { elements: Vec::new(), links: Vec::new() };
        assert(r@ =~= (Drawing { parts: seq![], links: seq![] }));
        r
    }

    fn place(&mut self, e: Element)
        ensures
            final(self)@ == (Drawing { parts: old(self)@.parts.push(e@), ..old(self)@ }),
    {
        self.elements.push(e);
        assert(self@ =~= (Drawing { parts: old(self)@.parts.push(e@), ..old(self)@ }));
    }

    fn join(&mut self, from: usize, to: usize, pad: &str)
        ensures
            final(self)@ == (Drawing {
                links: old(self)@.links.push((from as int, to as int, pad@)),
                ..old(self)@
            }),
    {
        self.links.push(Link { from, to, pad: pad.to_owned() });
        assert(self@ =~= (Drawing {
            links: old(self)@.links.push((from as int, to as int, pad@)),
            ..old(self)@
        }));
    }
}

/// A source that the program feeds, which drops its oldest data rather than block.
pub open spec fn leaky_source(
    name: Seq<char>,
    live: Seq<char>,
    format: Seq<char>,
    max_bytes: Seq<char>,
) -> Part {
    part("appsrc"@, name).set("is-live"@, live).set("format"@, format).set(
        "max-bytes"@,
        max_bytes,
    ).set("leaky-type"@, "downstream"@).set("block"@, "false"@)
}

fn leaky(name: &str, live: &str, format: &str, max_bytes: &str) -> (r: Element)
    ensures
        r@ == leaky_source(name@, live@, format@, max_bytes@),
{
    Element::new("appsrc", name).set("is-live", live).set("format", format).set(
        "max-bytes",
        max_bytes,
    ).set("leaky-type", "downstream").set("block", "false")
}

/// A sink that hands its buffers to the program at once.
pub open spec fn open_sink(name: Seq<char>) -> Part {
    part("appsink"@, name).set("sync"@, "false"@).set("async"@, "false"@)
}

fn outlet(name: &str) -> (r: Element)
    ensures
        r@ == open_sink(name@),
{
    Element::new("appsink", name).set("sync", "false").set("async", "false")
}

/// The parser of a codec.
pub open spec fn video_parser(codec: Codec) -> Seq<char> {
    match codec {
        Codec::H264 => "h264parse"@,
        Codec::Hevc => "h265parse"@,
    }
}

/// The caption inserter of a codec.
pub open spec fn caption_inserter(codec: Codec) -> Seq<char> {
    match codec {
        Codec::H264 => "h264ccinserter"@,
        Codec::Hevc => "h265ccinserter"@,
    }
}

/// The output pipeline: video through the parser and the caption inserter, audio
/// through a queue, both into the multiplexer on fixed PIDs, video first.
pub open spec fn output_drawing(codec: Codec) -> Drawing {
    Drawing {
        parts: seq![
            leaky_source("vsrc"@, "true"@, "time"@, "33554432"@).set("max-time"@, "2000000000"@),
            leaky_source("asrc"@, "true"@, "time"@, "4194304"@).set("max-time"@, "2000000000"@),
            part(video_parser(codec), "vparse"@).set("config-interval"@, "-1"@),
            part(caption_inserter(codec), "ccinsert"@).set("remove-caption-meta"@, "true"@),
            part("mpegtsmux"@, "mux"@).set("alignment"@, "7"@),
            part("queue"@, "aq"@),
            open_sink("tsout"@),
        ],
        links: seq![
            (0, 2, ""@),
            (2, 3, ""@),
            (3, 4, "sink_256"@),
            (1, 5, ""@),
            (5, 4, "sink_257"@),
            (4, 6, ""@),
        ],
    }
}

/// The output pipeline of a codec. Its first two elements take the video and the
/// audio, its last one gives the transport stream.
pub fn output_plan(codec: Codec) -> (r: Graph)
    ensures
        r@ == output_drawing(codec),
        r@.sound(),
{
    let parser = match codec {
        Codec::H264 => "h264parse",
        Codec::Hevc => "h265parse",
    };
    let inserter = match codec {
        Codec::H264 => "h264ccinserter",
        Codec::Hevc => "h265ccinserter",
    };
    let mut g = Graph::new();
    g.place(leaky("vsrc", "true", "time", "33554432").set("max-time", "2000000000"));
    g.place(leaky("asrc", "true", "time", "4194304").set("max-time", "2000000000"));
    g.place(Element::new(parser, "vparse").set("config-interval", "-1"));
    g.place(Element::new(inserter, "ccinsert").set("remove-caption-meta", "true"));
    g.place(Element::new("mpegtsmux", "mux").set("alignment", "7"));
    g.place(Element::new("queue", "aq"));
    g.place(outlet("tsout"));
    g.join(0, 2, "");
    g.join(2, 3, "");
    g.join(3, 4, "sink_256");
    g.join(1, 5, "");
    g.join(5, 4, "sink_257");
    g.join(4, 6, "");
    assert(g@ =~= output_drawing(codec));
    g
}

/// A sink for the transport stream at a URI.
pub open spec fn stream_drawing(uri: Seq<char>) -> Drawing {
    Drawing {
        parts: seq![
            leaky_source(""@, "true"@, "bytes"@, "4194304"@).set(
                "caps"@,
                "video/mpegts,systemstream=(boolean)true,packetsize=(int)188"@,
            ),
            Part { made: Made::Sink(uri), name: ""@, settings: seq![] }.try_set(
                "sync"@,
                "false"@,
            ).try_set("async"@, "false"@).try_set("wait-for-connection"@, "false"@),
        ],
        links: seq![(0, 1, ""@)],
    }
}

/// A sink that takes the elementary streams, multiplexed to FLV.
pub open spec fn rtmp_drawing(url: Seq<char>) -> Drawing {
    Drawing {
        parts: seq![
            leaky_source(""@, "false"@, "time"@, "33554432"@),
            leaky_source(""@, "false"@, "time"@, "4194304"@),
            part("queue"@, "q_video"@),
            part("h264parse"@, "parse_video"@),
            part("queue"@, "q_audio"@),
            part("aacparse"@, "parse_audio"@),
            part("flvmux"@, "flv"@).set("streamable"@, "true"@),
            part("rtmp2sink"@, "rtmp"@).set("location"@, url).set("sync"@, "false"@).set(
                "async"@,
                "false"@,
            ),
        ],
        links: seq![
            (6, 7, ""@),
            (0, 2, ""@),
            (2, 3, ""@),
            (3, 6, "video"@),
            (1, 4, ""@),
            (4, 5, ""@),
            (5, 6, "audio"@),
        ],
    }
}

/// The pipeline of an output, or what is wrong with its URL.
pub open spec fn sink_drawing(url: Seq<char>, latency_ms: u32) -> Result<Drawing, Seq<char>> {
    match output_of(url) {
        None => Err("unsupported output URL "@ + redacted(url)),
        Some(OutputKind::Srt) => Ok(stream_drawing(with_latency(url, latency_ms))),
        Some(OutputKind::Udp) => Ok(stream_drawing(as_udp(url))),
        Some(OutputKind::Rtmp) => Ok(rtmp_drawing(url)),
    }
}

fn stream_plan(uri: String) -> (r: Graph)
    ensures
        r@ == stream_drawing(uri@),
{
    let mut g = Graph::new();
    g.place(
        leaky("", "true", "bytes", "4194304").set(
            "caps",
            "video/mpegts,systemstream=(boolean)true,packetsize=(int)188",
        ),
    );
    let ghost shown = uri@;
    g.place(
        Element::made(Maker::Sink(uri), "").try_set("sync", "false").try_set(
            "async",
            "false",
        ).try_set("wait-for-connection", "false"),
    );
    g.join(0, 1, "");
    assert(g@ =~= stream_drawing(shown));
    g
}

fn rtmp_plan(url: &str) -> (r: Graph)
    ensures
        r@ == rtmp_drawing(url@),
{
    let mut g = Graph::new();
    g.place(leaky("", "false", "time", "33554432"));
    g.place(leaky("", "false", "time", "4194304"));
    g.place(Element::new("queue", "q_video"));
    g.place(Element::new("h264parse", "parse_video"));
    g.place(Element::new("queue", "q_audio"));
    g.place(Element::new("aacparse", "parse_audio"));
    g.place(Element::new("flvmux", "flv").set("streamable", "true"));
    g.place(
        Element::new("rtmp2sink", "rtmp").set("location", url).set("sync", "false").set(
            "async",
            "false",
        ),
    );
    g.join(6, 7, "");
    g.join(0, 2, "");
    g.join(2, 3, "");
    g.join(3, 6, "video");
    g.join(1, 4, "");
    g.join(4, 5, "");
    g.join(5, 6, "audio");
    assert(g@ =~= rtmp_drawing(url@));
    g
}

/// The pipeline of an output. Its first element takes the transport stream; for
/// RTMP the first two take the video and the audio.
pub fn sink_plan(url: &str, latency_ms: u32) -> (r: Result<Graph, String>)
    ensures
        match r {
            Ok(g) => sink_drawing(url@, latency_ms) == Ok::<Drawing, Seq<char>>(g@) && g@.sound(),
            Err(e) => sink_drawing(url@, latency_ms) == Err::<Drawing, Seq<char>>(e@),
        },
{
    match output_kind(url) {
        Err(e) => Err(e),
        Ok(OutputKind::Srt) => Ok(stream_plan(srt_uri(url, latency_ms))),
        Ok(OutputKind::Udp) => Ok(stream_plan(udp_uri(url))),
        Ok(OutputKind::Rtmp) => Ok(rtmp_plan(url)),
    }
}

/// The links of a chain of `n` elements from `base` on.
pub open spec fn chain_links(base: int, n: int) -> Seq<(int, int, Seq<char>)> {
    Seq::new((n - 1) as nat, |k: int| (base + k, base + k + 1, ""@))
}

/// The source of the input, and what takes the transport stream out of it.
pub open spec fn source_parts(url: Seq<char>, latency_ms: u32, kind: InputKind) -> Seq<Part> {
    match kind {
        InputKind::Srt => seq![
            Part {
                made: Made::Source(with_latency(url, latency_ms)),
                name: "insrc"@,
                settings: seq![],
            },
        ],
        InputKind::Udp => seq![
            Part { made: Made::Source(as_udp(url)), name: "insrc"@, settings: seq![] }.set(
                "buffer-size"@,
                "8388608"@,
            ).set("caps"@, "video/mpegts,systemstream=(boolean)true"@),
        ],
        InputKind::Rtp => seq![
            Part { made: Made::Source(as_udp(url)), name: "insrc"@, settings: seq![] }.set(
                "buffer-size"@,
                "8388608"@,
            ).set(
                "caps"@,
                "application/x-rtp,media=(string)video,clock-rate=(int)90000,encoding-name=(string)MP2T"@,
            ),
            part("rtpmp2tdepay"@, ""@),
        ],
    }
}

/// The input pipeline: the source and the demultiplexer in a chain, and the two
/// sinks to which its streams are linked as they appear.
pub open spec fn input_drawing(url: Seq<char>, latency_ms: u32) -> Result<Drawing, Seq<char>> {
    match input_of(url) {
        None => Err("unsupported input URL "@ + redacted(url)),
        Some(kind) => {
            let source = source_parts(url, latency_ms, kind);
            Ok(
                Drawing {
                    parts: seq![
                        open_sink("in_vsink"@),
                        open_sink("in_asink"@),
                        part("tsdemux"@, "demux"@).set("ignore-pcr"@, "true"@),
                    ] + source,
                    links: (if source.len() == 2 {
                        seq![(3int, 4int, ""@), (4, 2, ""@)]
                    } else {
                        seq![(3int, 2int, ""@)]
                    }),
                },
            )
        },
    }
}

/// The input pipeline. Its first two elements take the video and the audio, the
/// third one gives the streams.
pub fn input_plan(url: &str, latency_ms: u32) -> (r: Result<Graph, String>)
    ensures
        match r {
            Ok(g) => input_drawing(url@, latency_ms) == Ok::<Drawing, Seq<char>>(g@) && g@.sound(),
            Err(e) => input_drawing(url@, latency_ms) == Err::<Drawing, Seq<char>>(e@),
        },
{
    let kind = match input_kind(url) {
        Err(e) => return Err(e),
        Ok(k) => k,
    };
    let mut g = Graph::new();
    g.place(outlet("in_vsink"));
    g.place(outlet("in_asink"));
    g.place(Element::new("tsdemux", "demux").set("ignore-pcr", "true"));
    match kind {
        InputKind::Srt => {
            g.place(Element::made(Maker::Source(srt_uri(url, latency_ms)), "insrc"));
            g.join(3, 2, "");
        },
        InputKind::Udp => {
            g.place(
                Element::made(Maker::Source(udp_uri(url)), "insrc").set(
                    "buffer-size",
                    "8388608",
                ).set("caps", "video/mpegts,systemstream=(boolean)true"),
            );
            g.join(3, 2, "");
        },
        InputKind::Rtp => {
            g.place(
                Element::made(Maker::Source(udp_uri(url)), "insrc").set(
                    "buffer-size",
                    "8388608",
                ).set(
                    "caps",
                    "application/x-rtp,media=(string)video,clock-rate=(int)90000,encoding-name=(string)MP2T",
                ),
            );
            g.place(Element::new("rtpmp2tdepay", ""));
            g.join(3, 4, "");
            g.join(4, 2, "");
        },
    }
    assert(g@ =~= input_drawing(url@, latency_ms)->Ok_0);
    Ok(g)
}

/// The parser of an audio format; an unknown one has none.
pub open spec fn audio_part(parser: AudioParser) -> Option<Part> {
    match parser {
        AudioParser::Aac => Some(part("aacparse"@, ""@)),
        AudioParser::MpegAudio => Some(part("mpegaudioparse"@, ""@)),
        AudioParser::Ac3 => Some(part("ac3parse"@, ""@)),
        AudioParser::Plain => None,
    }
}

/// An audio branch: the parser, and a tee if the stream goes to both places.
pub open spec fn branch_drawing(p: AudioPlan) -> Option<Drawing> {
    match audio_part(p.parser) {
        None => None,
        Some(parser) => Some(
            if p.to_output && p.to_tap {
                Drawing { parts: seq![parser, part("tee"@, ""@)], links: seq![(0, 1, ""@)] }
            } else {
                Drawing { parts: seq![parser], links: seq![] }
            },
        ),
    }
}

/// An audio branch, entered at its first element and left at its last one;
/// `None` if the stream passes as it is.
pub fn branch_plan(p: AudioPlan) -> (r: Option<Graph>)
    ensures
        r is Some == branch_drawing(p) is Some,
        r matches Some(g) ==> g@ == branch_drawing(p)->0 && g@.sound(),
{
    let parser = match p.parser {
        AudioParser::Aac => "aacparse",
        AudioParser::MpegAudio => "mpegaudioparse",
        AudioParser::Ac3 => "ac3parse",
        AudioParser::Plain => return None,
    };
    let mut g = Graph::new();
    g.place(Element::new(parser, ""));
    if p.to_output && p.to_tap {
        g.place(Element::new("tee", ""));
        g.join(0, 1, "");
    }
    assert(g@ =~= branch_drawing(p)->0);
    Some(g)
}

/// The audio tap: decoded, resampled to 16 kHz, never blocking what feeds it.
/// The decoder is FFmpeg's.
pub open spec fn tap_drawing() -> Drawing {
    Drawing {
        parts: seq![
            part("queue"@, ""@).set("max-size-time"@, "2000000000"@).set(
                "max-size-buffers"@,
                "0"@,
            ).set("max-size-bytes"@, "0"@).set("leaky"@, "downstream"@),
            part("avdec_aac"@, ""@),
            part("audioconvert"@, ""@),
            part("audioresample"@, ""@),
            open_sink("asr_tap"@).set(
                "caps"@,
                "audio/x-raw,format=(string)S16LE,rate=(int)16000,layout=(string)interleaved"@,
            ).set("max-buffers"@, "50"@).set("drop"@, "true"@),
        ],
        links: chain_links(0, 5),
    }
}

/// The audio tap, entered at its first element and left at its last one.
pub fn tap_plan() -> (r: Graph)
    ensures
        r@ == tap_drawing(),
        r@.sound(),
{
    let mut g = Graph::new();
    g.place(
        Element::new("queue", "").set("max-size-time", "2000000000").set(
            "max-size-buffers",
            "0",
        ).set("max-size-bytes", "0").set("leaky", "downstream"),
    );
    g.place(Element::new("avdec_aac", ""));
    g.place(Element::new("audioconvert", ""));
    g.place(Element::new("audioresample", ""));
    g.place(
        outlet("asr_tap").set(
            "caps",
            "audio/x-raw,format=(string)S16LE,rate=(int)16000,layout=(string)interleaved",
        ).set("max-buffers", "50").set("drop", "true"),
    );
    g.join(0, 1, "");
    g.join(1, 2, "");
    g.join(2, 3, "");
    g.join(3, 4, "");
    assert(g@ =~= tap_drawing());
    g
}

/// The frame rate that captions go by: the reported one if it makes sense, else
/// 30 a second; and whether it was reported.
pub open spec fn rate_of(reported: Option<(i32, i32)>) -> ((i32, i32), bool) {
    match reported {
        Some(f) => if f.0 > 0 && f.1 > 0 {
            (f, true)
        } else {
            ((30, 1), false)
        },
        None => ((30, 1), false),
    }
}

/// The frame rate that captions go by, and whether it was reported.
pub fn frame_rate(reported: Option<(i32, i32)>) -> (r: ((i32, i32), bool))
    ensures
        r == rate_of(reported),
{
    match reported {
        Some(f) => if f.0 > 0 && f.1 > 0 {
            (f, true)
        } else {
            ((30, 1), false)
        },
        None => ((30, 1), false),
    }
}

/// The format that caption data has at a frame rate.
pub open spec fn caption_caps(fps: (i32, i32)) -> Seq<char> {
    "closedcaption/x-cea-708,format=(string)cc_data,framerate=(fraction)"@ + signed_decimal(
        fps.0 as int,
    ) + "/"@ + signed_decimal(fps.1 as int)
}

fn data_caps(fps: (i32, i32)) -> (r: String)
    ensures
        r@ == caption_caps(fps),
{
    let mut s = String::new();
    push_text(&mut s, "closedcaption/x-cea-708,format=(string)cc_data,framerate=(fraction)");
    push_signed(&mut s, fps.0 as i64);
    push_text(&mut s, "/");
    push_signed(&mut s, fps.1 as i64);
    assert(s@ =~= caption_caps(fps));
    s
}

/// The format in which caption encoders take text.
pub fn text_caps() -> (r: String)
    ensures
        r@ == "text/x-raw,format=(string)utf8"@,
{
    "text/x-raw,format=(string)utf8".to_owned()
}

/// The encoder of a track, and what turns its output into caption data. The 608
/// encoder writes the codes of CC1; for CC3 the same codes are relabelled.
pub open spec fn encoder_parts(t: Track) -> Seq<Part> {
    match t {
        Track::Cea608 { field, mode } => {
            let encoder = part("tttocea608"@, ""@).set("mode"@, mode);
            let convert = part("ccconverter"@, ""@);
            if field == 1 {
                seq![
                    encoder,
                    part("capssetter"@, ""@).set("caps"@, "closedcaption/x-cea-608,field=(int)1"@),
                    convert,
                ]
            } else {
                seq![encoder, convert]
            }
        },
        Track::Cea708 { service, channel, mode, rows } => seq![
            part("tttocea708"@, ""@).set("mode"@, mode).set(
                "service-number"@,
                decimal(service as nat),
            ).set("cea608-channel"@, decimal(channel as nat)).set(
                "roll-up-rows"@,
                decimal(rows as nat),
            ),
        ],
    }
}

/// The chain of a track. One of several tracks has a source of its own.
pub open spec fn track_parts(t: Track, caps: Seq<char>, several: bool) -> Seq<Part> {
    (if several {
        seq![
            part("appsrc"@, ""@).set("format"@, "time"@).set("is-live"@, "false"@).set(
                "max-bytes"@,
                "0"@,
            ).set("block"@, "false"@).set("caps"@, "text/x-raw,format=(string)utf8"@),
        ]
    } else {
        seq![]
    }) + encoder_parts(t) + seq![part("capsfilter"@, ""@).set("caps"@, caps)]
}

/// The caption pipeline, and where each track begins and ends in it.
#[verifier::ext_equal]
pub struct Captioning {
    pub drawing: Drawing,
    pub feeds: Seq<int>,
    pub ends: Seq<int>,
}

/// What several tracks share: the sink, and before it the multiplexer.
pub open spec fn shared_captioning(caps: Seq<char>, several: bool) -> Captioning {
    let sink = open_sink(""@).set("max-buffers"@, "0"@);
    Captioning {
        drawing: if several {
            Drawing {
                parts: seq![
                    sink,
                    part("cea708mux"@, ""@),
                    part("capsfilter"@, ""@).set("caps"@, caps),
                ],
                links: seq![(1, 2, ""@), (2, 0, ""@)],
            }
        } else {
            Drawing { parts: seq![sink], links: seq![] }
        },
        feeds: seq![],
        ends: seq![],
    }
}

impl Captioning {
    /// With one more track: its chain, which ends in the multiplexer, or in the
    /// sink if it is the only one.
    pub open spec fn with_track(self, t: Track, caps: Seq<char>, several: bool) -> Captioning {
        let chain = track_parts(t, caps, several);
        let base = self.drawing.parts.len() as int;
        let end = base + chain.len() - 1;
        Captioning {
            drawing: Drawing {
                parts: self.drawing.parts + chain,
                links: self.drawing.links + chain_links(base, chain.len() as int) + seq![
                    if several {
                        (end, 1int, "sink_%u"@)
                    } else {
                        (end, 0int, ""@)
                    },
                ],
            },
            feeds: self.feeds.push(base),
            ends: self.ends.push(end),
        }
    }
}

/// The pipeline of the first tracks.
pub open spec fn captioning(tracks: Seq<Track>, caps: Seq<char>, several: bool) -> Captioning
    decreases tracks.len(),
{
    if tracks.len() == 0 {
        shared_captioning(caps, several)
    } else {
        captioning(tracks.drop_last(), caps, several).with_track(tracks.last(), caps, several)
    }
}

/// The tracks of a list.
pub open spec fn track_list(list: Seq<TrackCfg>) -> Seq<Track> {
    list.map_values(|t: TrackCfg| t@)
}

/// The caption pipeline of tracks at a frame rate, or what is wrong with them.
pub open spec fn caption_drawing(tracks: Seq<Track>, fps: (i32, i32)) -> Result<
    Captioning,
    Seq<char>,
> {
    if tracks.len() == 0 {
        Err("no caption tracks"@)
    } else if fps.0 <= 0 || fps.1 <= 0 {
        Err(
            "bad frame rate "@ + signed_decimal(fps.0 as int) + "/"@ + signed_decimal(
                fps.1 as int,
            ),
        )
    } else {
        Ok(captioning(tracks, caption_caps(fps), tracks.len() > 1))
    }
}

/// The caption pipeline; its first element gives the caption data.
#[derive(Clone, Debug, PartialEq, Eq)]
pub struct CaptionPlan {
    pub graph: Graph,
    /// The element at which each track is fed.
    pub feeds: Vec<usize>,
    /// The last element of each track.
    pub ends: Vec<usize>,
}

/// Positions as integers.
pub open spec fn positions(list: Seq<usize>) -> Seq<int> {
    list.map_values(|i: usize| i as int)
}

impl View for CaptionPlan {
    type V = Captioning;

    open spec fn view(&self) -> Captioning {
        Captioning {
            drawing: self.graph@,
            feeds: positions(self.feeds@),
            ends: positions(self.ends@),
        }
    }
}

fn number(n: u32) -> (r: String)
    ensures
        r@ == decimal(n as nat),
{
    let mut s = String::new();
    push_decimal(&mut s, n as u64);
    assert(s@ =~= decimal(n as nat));
    s
}

/// The elements of a track's chain.
fn track_elements(t: &TrackCfg, caps: &str, several: bool) -> (r: Vec<Element>)
    ensures
        part_list(r@) == track_parts(t@, caps@, several),
        1 <= r@.len() <= 5,
{
    let mut r: Vec<Element> = Vec::new();
    if several {
        r.push(
            Element::new("appsrc", "").set("format", "time").set("is-live", "false").set(
                "max-bytes",
                "0",
            ).set("block", "false").set("caps", "text/x-raw,format=(string)utf8"),
        );
    }
    match t {
        TrackCfg::Cea608 { field, mode } => {
            r.push(Element::new("tttocea608", "").set("mode", mode.as_str()));
            if *field == 1 {
                r.push(
                    Element::new("capssetter", "").set(
                        "caps",
                        "closedcaption/x-cea-608,field=(int)1",
                    ),
                );
            }
            r.push(Element::new("ccconverter", ""));
        },
        TrackCfg::Cea708 { service, cea608_channel, mode, roll_up_rows } => {
            let service = number(*service);
            let channel = number(*cea608_channel);
            let rows = number(*roll_up_rows);
            r.push(
                Element::new("tttocea708", "").set("mode", mode.as_str()).set(
                    "service-number",
                    service.as_str(),
                ).set("cea608-channel", channel.as_str()).set("roll-up-rows", rows.as_str()),
            );
        },
    }
    r.push(Element::new("capsfilter", "").set("caps", caps));
    assert(part_list(r@) =~= track_parts(t@, caps@, several));
    r
}

impl CaptionPlan {
    /// There is room for one more track.
    spec fn fits(self, n: int) -> bool {
        self.graph.elements@.len() <= 3 + 5 * n
    }

    fn shared(caps: &str, several: bool) -> (r: Self)
        ensures
            r@ == shared_captioning(caps@, several),
            r.fits(0),
    {
        let mut g = Graph::new();
        g.place(outlet("").set("max-buffers", "0"));
        if several {
            g.place(Element::new("cea708mux", ""));
            g.place(Element::new("capsfilter", "").set("caps", caps));
            g.join(1, 2, "");
            g.join(2, 0, "");
        }
        let r = CaptionPlan { graph: g, feeds: Vec::new(), ends: Vec::new() };
        assert(r.graph@.parts.len() == r.graph.elements@.len());
        assert(r@ =~= shared_captioning(caps@, several));
        r
    }

    fn add_track(&mut self, t: &TrackCfg, caps: &str, several: bool)
        requires
            old(self).graph.elements@.len() + 5 <= usize::MAX,
        ensures
            final(self)@ == old(self)@.with_track(t@, caps@, several),
            final(self).graph.elements@.len() <= old(self).graph.elements@.len() + 5,
    {
        let ghost before = self@;
        let mut chain = track_elements(t, caps, several);
        let base: usize = self.graph.elements.len();
        let n: usize = chain.len();
        let ghost parts = part_list(chain@);
        self.graph.elements.append(&mut chain);
        assert(part_list(self.graph.elements@) =~= before.drawing.parts + parts);
        let mut k: usize = 0;
        assert(chain_links(base as int, 1) =~= seq![]);
        assert(link_list(self.graph.links@) =~= before.drawing.links + chain_links(base as int, 1));
        while k + 1 < n
            invariant
                k < n,
                base + n <= usize::MAX,
                link_list(self.graph.links@) == before.drawing.links + chain_links(
                    base as int,
                    k + 1,
                ),
                part_list(self.graph.elements@) == before.drawing.parts + parts,
                self.graph.elements@.len() == base + n,
                self.feeds == old(self).feeds,
                self.ends == old(self).ends,
            decreases n - k,
        {
            self.graph.join(base + k, base + k + 1, "");
            proof {
                assert(chain_links(base as int, k + 2) =~= chain_links(base as int, k + 1).push(
                    (base + k, base + k + 1, ""@),
                ));
                assert(link_list(self.graph.links@) =~= before.drawing.links + chain_links(
                    base as int,
                    k + 2,
                ));
                assert(self.graph.elements@.len() == self.graph@.parts.len());
            }
            k = k + 1;
        }
        let end: usize = base + n - 1;
        if several {
            self.graph.join(end, 1, "sink_%u");
        } else {
            self.graph.join(end, 0, "");
        }
        assert(self.graph.elements@.len() == self.graph@.parts.len());
        self.feeds.push(base);
        self.ends.push(end);
        assert(self@ =~= before.with_track(t@, caps@, several));
    }
}

/// Plans the caption pipeline of tracks at a frame rate.
pub fn caption_plan(tracks: &[TrackCfg], fps: (i32, i32)) -> (r: Result<CaptionPlan, String>)
    requires
        3 + 5 * tracks@.len() <= usize::MAX,
    ensures
        match r {
            Ok(p) => caption_drawing(track_list(tracks@), fps) == Ok::<Captioning, Seq<char>>(p@),
            Err(e) => caption_drawing(track_list(tracks@), fps) == Err::<Captioning, Seq<char>>(
                e@,
            ),
        },
{
    let ghost list = track_list(tracks@);
    if tracks.len() == 0 {
        return Err("no caption tracks".to_owned());
    }
    if fps.0 <= 0 || fps.1 <= 0 {
        let mut e = String::new();
        push_text(&mut e, "bad frame rate ");
        push_signed(&mut e, fps.0 as i64);
        push_text(&mut e, "/");
        push_signed(&mut e, fps.1 as i64);
        assert(e@ =~= caption_drawing(list, fps)->Err_0);
        return Err(e);
    }
    let caps = data_caps(fps);
    let several = tracks.len() > 1;
    let mut plan = CaptionPlan::shared(caps.as_str(), several);
    let mut i: usize = 0;
    assert(list.take(0) =~= seq![]);
    while i < tracks.len()
        invariant
            i <= tracks@.len(),
            list == track_list(tracks@),
            3 + 5 * tracks@.len() <= usize::MAX,
            plan.fits(i as int),
            plan@ == captioning(list.take(i as int), caps@, several),
        decreases tracks.len() - i,
    {
        assert(list.take(i + 1).drop_last() =~= list.take(i as int));
        plan.add_track(&tracks[i], caps.as_str(), several);
        i += 1;
    }
    assert(list.take(i as int) =~= list);
    Ok(plan)
}

} // verus!
