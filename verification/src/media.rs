//! Running the media side: what it needs, when the input is rebuilt, and when
//! each output is restarted. Times are milliseconds unless the name says
//! otherwise.
use vstd::prelude::*;

use crate::backoff::{double_wait, next_wait};
use crate::chars::{same_text, starts_with, texts, to_chars};
use crate::config::{language_parts, Captions, Config, Language};
use crate::counter::{count, counted};
use crate::decimal::push_text;
use crate::url::{
    input_kind, input_of, output_kind, output_of, redact, redacted, InputKind, OutputKind,
};

verus! {

/// What the media side needs from the configuration.
#[derive(Clone, Debug, PartialEq)]
pub struct MediaConfig {
    pub input_url: String,
    pub outputs: Vec<String>,
    pub srt_latency_ms: u32,
    pub languages: Vec<Language>,
    pub captions: Captions,
    /// Audio track (0 = first) for speech recognition. The output always
    /// carries the first.
    pub audio_track: u32,
    /// Channel to transcribe; `None` downmixes.
    pub audio_channel: Option<u32>,
    /// Restart the input when data stops for this long (after it has flowed).
    pub watchdog_ms: u64,
}

/// The language entries say the same.
pub open spec fn same_languages(a: Seq<Language>, b: Seq<Language>) -> bool {
    a.len() == b.len() && forall|i: int|
        0 <= i < a.len() ==> language_parts(#[trigger] a[i])
            == language_parts(b[i])
}

impl MediaConfig {
    /// Takes the media settings out of the configuration.
    pub fn from_config(c: &Config) -> (r: Self)
        ensures
            r.input_url@ == c.input.url@,
            texts(r.outputs@) == Seq::new(c.outputs@.len(), |i: int| c.outputs@[i].url@),
            r.srt_latency_ms == c.srt.latency_ms,
            same_languages(r.languages@, c.languages@),
            r.captions == c.captions,
            r.audio_track == c.audio.track,
            r.audio_channel == c.audio.channel,
            r.watchdog_ms == 2000,
    {
        let mut outputs: Vec<String> = Vec::new();
        let mut i: usize = 0;
        while i < c.outputs.len()
            invariant
                i <= c.outputs@.len(),
                outputs@.len() == i,
                forall|k: int| 0 <= k < i ==> (#[trigger] outputs@[k])@ == c.outputs@[k].url@,
            decreases c.outputs.len() - i,
        {
            outputs.push(c.outputs[i].url.clone());
            i += 1;
        }
        assert(texts(outputs@) =~= Seq::new(c.outputs@.len(), |i: int| c.outputs@[i].url@));
        let mut languages: Vec<Language> = Vec::new();
        let mut j: usize = 0;
        while j < c.languages.len()
            invariant
                j <= c.languages@.len(),
                languages@.len() == j,
                forall|k: int|
                    0 <= k < j ==> language_parts(#[trigger] languages@[k])
                        == language_parts(c.languages@[k]),
            decreases c.languages.len() - j,
        {
            let l = &c.languages[j];
            languages.push(
                Language {
                    code: l.code.clone(),
                    source: l.source,
                    cc608: l.cc608,
                    cea708_service: l.cea708_service,
                    priority: l.priority,
                },
            );
            j += 1;
        }
        MediaConfig {
            input_url: c.input.url.clone(),
            outputs,
            srt_latency_ms: c.srt.latency_ms,
            languages,
            captions: c.captions,
            audio_track: c.audio.track,
            audio_channel: c.audio.channel,
            watchdog_ms: 2000,
        }
    }
}

/// The elements that every configuration needs.
pub open spec fn common_elements() -> Seq<Seq<char>> {
    seq![
        "tsdemux"@,
        "h264parse"@,
        "h265parse"@,
        "h264ccinserter"@,
        "h265ccinserter"@,
        "mpegtsmux"@,
        "tttocea708"@,
        "tttocea608"@,
        "cea708mux"@,
        "ccconverter"@,
        "capssetter"@,
        "appsrc"@,
        "appsink"@,
        "queue"@,
        "tee"@,
        "aacparse"@,
        "mpegaudioparse"@,
        "ac3parse"@,
        "audioconvert"@,
        "audioresample"@,
        "fakesink"@,
        "capsfilter"@,
    ]
}

/// The elements that an input of a kind needs.
pub open spec fn input_elements(kind: InputKind) -> Seq<Seq<char>> {
    match kind {
        InputKind::Srt => seq!["srtsrc"@],
        InputKind::Udp => seq!["udpsrc"@],
        InputKind::Rtp => seq!["udpsrc"@, "rtpmp2tdepay"@],
    }
}

/// The elements that an output of a kind needs.
pub open spec fn output_elements(kind: OutputKind) -> Seq<Seq<char>> {
    match kind {
        OutputKind::Srt => seq!["srtsink"@],
        OutputKind::Udp => seq!["udpsink"@],
        OutputKind::Rtmp => seq!["flvmux"@, "rtmp2sink"@],
    }
}

/// The elements that the first outputs need, or what is wrong with one.
pub open spec fn outputs_elements(urls: Seq<Seq<char>>) -> Result<Seq<Seq<char>>, Seq<char>>
    decreases urls.len(),
{
    if urls.len() == 0 {
        Ok(seq![])
    } else {
        match outputs_elements(urls.drop_last()) {
            Err(e) => Err(e),
            Ok(list) => match output_of(urls.last()) {
                Some(kind) => Ok(list + output_elements(kind)),
                None => Err("unsupported output URL "@ + redacted(urls.last())),
            },
        }
    }
}

/// Every element that an input and outputs need, or what is wrong with one.
pub open spec fn all_elements(input: Seq<char>, outputs: Seq<Seq<char>>) -> Result<
    Seq<Seq<char>>,
    Seq<char>,
> {
    match input_of(input) {
        None => Err("unsupported input URL "@ + redacted(input)),
        Some(kind) => match outputs_elements(outputs) {
            Err(e) => Err(e),
            Ok(list) => Ok(common_elements() + input_elements(kind) + list),
        },
    }
}

fn push_name(list: &mut Vec<String>, name: &str)
    ensures
        texts(final(list)@) == texts(old(list)@).push(name@),
{
    list.push(name.to_owned());
    assert(texts(list@) =~= texts(old(list)@).push(name@));
}

fn push_common(list: &mut Vec<String>)
    ensures
        texts(final(list)@) == texts(old(list)@) + common_elements(),
{
    push_name(list, "tsdemux");
    push_name(list, "h264parse");
    push_name(list, "h265parse");
    push_name(list, "h264ccinserter");
    push_name(list, "h265ccinserter");
    push_name(list, "mpegtsmux");
    push_name(list, "tttocea708");
    push_name(list, "tttocea608");
    push_name(list, "cea708mux");
    push_name(list, "ccconverter");
    push_name(list, "capssetter");
    push_name(list, "appsrc");
    push_name(list, "appsink");
    push_name(list, "queue");
    push_name(list, "tee");
    push_name(list, "aacparse");
    push_name(list, "mpegaudioparse");
    push_name(list, "ac3parse");
    push_name(list, "audioconvert");
    push_name(list, "audioresample");
    push_name(list, "fakesink");
    push_name(list, "capsfilter");
    assert(texts(list@) =~= texts(old(list)@) + common_elements());
}

proof fn lemma_elements_error_stays(urls: Seq<Seq<char>>, n: int)
    requires
        0 <= n <= urls.len(),
        outputs_elements(urls.take(n)) is Err,
    ensures
        outputs_elements(urls) == outputs_elements(urls.take(n)),
    decreases urls.len() - n,
{
    if n == urls.len() {
        assert(urls.take(n) =~= urls);
    } else {
        assert(urls.take(n + 1).drop_last() =~= urls.take(n));
        lemma_elements_error_stays(urls, n + 1);
    }
}

/// Every element that a configuration needs.
pub fn required_elements(input: &str, outputs: &[String]) -> (r: Result<Vec<String>, String>)
    ensures
        match r {
            Ok(list) => all_elements(input@, texts(outputs@)) == Ok::<Seq<Seq<char>>, Seq<char>>(
                texts(list@),
            ),
            Err(e) => all_elements(input@, texts(outputs@)) == Err::<Seq<Seq<char>>, Seq<char>>(
                e@,
            ),
        },
{
    let mut need: Vec<String> = Vec::new();
    assert(texts(need@) =~= seq![]);
    push_common(&mut need);
    assert(texts(need@) =~= common_elements());
    match input_kind(input) {
        Err(e) => return Err(e),
        Ok(kind) => {
            match kind {
                InputKind::Srt => push_name(&mut need, "srtsrc"),
                InputKind::Udp => push_name(&mut need, "udpsrc"),
                InputKind::Rtp => {
                    push_name(&mut need, "udpsrc");
                    push_name(&mut need, "rtpmp2tdepay");
                },
            }
            assert(texts(need@) =~= common_elements() + input_elements(kind));
        },
    }
    let ghost head = texts(need@);
    let ghost urls = texts(outputs@);
    let mut i: usize = 0;
    assert(texts(need@) =~= head + outputs_elements(urls.take(0))->Ok_0);
    while i < outputs.len()
        invariant
            i <= outputs@.len(),
            urls == texts(outputs@),
            input_of(input@) is Some,
            head == common_elements() + input_elements(input_of(input@)->0),
            outputs_elements(urls.take(i as int)) is Ok,
            texts(need@) == head + outputs_elements(urls.take(i as int))->Ok_0,
        decreases outputs.len() - i,
    {
        proof {
            assert(urls.take(i + 1).drop_last() =~= urls.take(i as int));
            assert(urls.take(i + 1).last() == outputs@[i as int]@);
        }
        match output_kind(outputs[i].as_str()) {
            Err(e) => {
                proof {
                    lemma_elements_error_stays(urls, i + 1);
                }
                return Err(e);
            },
            Ok(kind) => {
                match kind {
                    OutputKind::Srt => push_name(&mut need, "srtsink"),
                    OutputKind::Udp => push_name(&mut need, "udpsink"),
                    OutputKind::Rtmp => {
                        push_name(&mut need, "flvmux");
                        push_name(&mut need, "rtmp2sink");
                    },
                }
                assert(texts(need@) =~= head + outputs_elements(urls.take(i + 1))->Ok_0);
            },
        }
        i += 1;
    }
    assert(urls.take(urls.len() as int) =~= urls);
    Ok(need)
}

/// The names that are not there.
pub open spec fn absent(names: Seq<Seq<char>>, present: Seq<bool>) -> Seq<Seq<char>>
    decreases names.len(),
{
    if names.len() == 0 {
        seq![]
    } else {
        let head = absent(names.drop_last(), present);
        if present[names.len() - 1] {
            head
        } else {
            head.push(names.last())
        }
    }
}

/// Names with a comma and a space between them.
pub open spec fn comma_list(names: Seq<Seq<char>>) -> Seq<char>
    decreases names.len(),
{
    if names.len() == 0 {
        seq![]
    } else if names.len() == 1 {
        names[0]
    } else {
        comma_list(names.drop_last()) + ", "@ + names.last()
    }
}

/// What to report of missing elements: the audio decoder first.
pub fn missing_elements(names: &[String], present: &[bool], has_decoder: bool) -> (r: Option<
    String,
>)
    requires
        present@.len() == names@.len(),
    ensures
        r is None <==> has_decoder && absent(texts(names@), present@).len() == 0,
        r matches Some(m) ==> m@ == if !has_decoder {
            "GStreamer element avdec_aac is missing: install gst-libav (the audio tap uses FFmpeg's LGPL AAC decoder only)"@
        } else {
            "missing GStreamer elements: "@ + comma_list(absent(texts(names@), present@))
        },
{
    let ghost all = texts(names@);
    let mut list = String::new();
    let mut any = false;
    let mut i: usize = 0;
    while i < names.len()
        invariant
            i <= names@.len(),
            present@.len() == names@.len(),
            all == texts(names@),
            any == (absent(all.take(i as int), present@).len() > 0),
            list@ == comma_list(absent(all.take(i as int), present@)),
        decreases names.len() - i,
    {
        let ghost before = absent(all.take(i as int), present@);
        proof {
            assert(all.take(i + 1).drop_last() =~= all.take(i as int));
            assert(all.take(i + 1).last() == names@[i as int]@);
        }
        if !present[i] {
            if any {
                push_text(&mut list, ", ");
            }
            push_text(&mut list, names[i].as_str());
            any = true;
            proof {
                let after = before.push(names@[i as int]@);
                assert(after.drop_last() =~= before);
                assert(list@ =~= comma_list(after));
            }
        }
        i += 1;
    }
    assert(all.take(all.len() as int) =~= all);
    if !has_decoder {
        return Some(
            "GStreamer element avdec_aac is missing: install gst-libav (the audio tap uses FFmpeg's LGPL AAC decoder only)".to_owned(),
        );
    }
    if any {
        let mut m = String::new();
        push_text(&mut m, "missing GStreamer elements: ");
        push_text(&mut m, list.as_str());
        assert(m@ =~= "missing GStreamer elements: "@ + comma_list(absent(all, present@)));
        return Some(m);
    }
    None
}

/// First wait before the input is rebuilt.
pub const INPUT_BACKOFF_INITIAL_MS: u64 = 250;

/// Longest wait before the input is rebuilt.
pub const INPUT_BACKOFF_MAX_MS: u64 = 2000;

/// Data from the input came within the watchdog window.
pub open spec fn live(last_data_ns: u64, now_ns: u64, watchdog_ns: u64) -> bool {
    last_data_ns > 0 && now_ns - last_data_ns < watchdog_ns && watchdog_ns > 0
}

/// Data has flowed, and has stopped for longer than the watchdog window.
pub open spec fn silent(last_data_ns: u64, now_ns: u64, watchdog_ns: u64) -> bool {
    last_data_ns > 0 && now_ns - last_data_ns > watchdog_ns
}

/// Whether data from the input came within the watchdog window.
pub fn input_live(last_data_ns: u64, now_ns: u64, watchdog_ns: u64) -> (r: bool)
    ensures
        r == live(last_data_ns, now_ns, watchdog_ns),
{
    let since: u64 = if now_ns > last_data_ns {
        now_ns - last_data_ns
    } else {
        0
    };
    last_data_ns > 0 && since < watchdog_ns
}

/// When the input is rebuilt.
#[derive(Clone, Copy, Debug, PartialEq, Eq)]
pub struct InputControl {
    pub backoff_ms: u64,
    pub errors: u64,
    pub restarts: u64,
}

impl InputControl {
    pub fn new() -> (r: Self)
        ensures
            r == (InputControl { backoff_ms: INPUT_BACKOFF_INITIAL_MS, errors: 0, restarts: 0 }),
    {
        InputControl { backoff_ms: INPUT_BACKOFF_INITIAL_MS, errors: 0, restarts: 0 }
    }

    /// The input could not be built: returns how long to wait.
    pub fn build_failed(&mut self) -> (wait_ms: u64)
        ensures
            wait_ms == old(self).backoff_ms,
            *final(self) == (InputControl {
                backoff_ms: next_wait(old(self).backoff_ms, INPUT_BACKOFF_MAX_MS),
                errors: counted(old(self).errors, 1),
                ..*old(self)
            }),
    {
        let wait = self.backoff_ms;
        self.errors = count(self.errors, 1);
        self.backoff_ms = double_wait(wait, INPUT_BACKOFF_MAX_MS);
        wait
    }

    /// The input did not start: it is stopped and rebuilt.
    pub fn start_failed(&mut self)
        ensures
            *final(self) == (InputControl {
                errors: counted(old(self).errors, 1),
                ..*old(self)
            }),
    {
        self.errors = count(self.errors, 1);
    }

    /// Looks at a running input: whether it has reported an error or its end,
    /// and when it last brought data. Returns whether to restart it.
    pub fn watch(
        &mut self,
        error: bool,
        eos: bool,
        last_data_ns: u64,
        now_ns: u64,
        watchdog_ns: u64,
    ) -> (restart: bool)
        ensures
            restart == (error || eos || silent(last_data_ns, now_ns, watchdog_ns)),
            *final(self) == (InputControl {
                backoff_ms: if last_data_ns > 0 {
                    INPUT_BACKOFF_INITIAL_MS
                } else {
                    old(self).backoff_ms
                },
                errors: counted(old(self).errors, if error {
                    1
                } else {
                    0
                }),
                ..*old(self)
            }),
    {
        if error {
            self.errors = count(self.errors, 1);
        }
        if last_data_ns > 0 {
            self.backoff_ms = INPUT_BACKOFF_INITIAL_MS;
        }
        let since: u64 = if now_ns > last_data_ns {
            now_ns - last_data_ns
        } else {
            0
        };
        error || eos || (last_data_ns > 0 && since > watchdog_ns)
    }

    /// The input was stopped: returns how long to wait before rebuilding it.
    pub fn restarted(&mut self) -> (wait_ms: u64)
        ensures
            wait_ms == old(self).backoff_ms,
            *final(self) == (InputControl {
                backoff_ms: next_wait(old(self).backoff_ms, INPUT_BACKOFF_MAX_MS),
                restarts: counted(old(self).restarts, 1),
                ..*old(self)
            }),
    {
        let wait = self.backoff_ms;
        self.restarts = count(self.restarts, 1);
        self.backoff_ms = double_wait(wait, INPUT_BACKOFF_MAX_MS);
        wait
    }
}

/// First wait before an output is restarted.
pub const BACKOFF_INITIAL_MS: u64 = 500;

/// Longest wait before an output is restarted.
pub const BACKOFF_MAX_MS: u64 = 10_000;

/// An output running this long without errors resets its backoff.
pub const HEALTHY_RESET_MS: u64 = 30_000;

/// What to do with an output.
#[derive(Clone, Copy, Debug, PartialEq, Eq, Structural)]
pub enum SinkStep {
    /// Leave it as it is.
    Keep,
    /// It failed: tear it down.
    Stop,
    /// Build it and report the outcome.
    Build,
}

/// An output with its secrets removed, and what it has been through.
#[derive(Clone, Debug, PartialEq, Eq)]
pub struct OutputStats {
    pub url: String,
    pub running: bool,
    /// Errors so far (start failures and runtime errors).
    pub errors: u64,
    /// Successful (re)starts.
    pub starts: u64,
}

/// When an output is restarted. Each output is restarted on its own.
#[derive(Clone, Copy, Debug, PartialEq, Eq)]
pub struct OutSink {
    pub running: bool,
    pub retry_at: Option<u64>,
    pub backoff_ms: u64,
    pub started: Option<u64>,
    pub errors: u64,
    pub starts: u64,
}

impl OutSink {
    /// An output that is to be started at once.
    pub fn new(now_ms: u64) -> (r: Self)
        ensures
            r == (OutSink {
                running: false,
                retry_at: Some(now_ms),
                backoff_ms: BACKOFF_INITIAL_MS,
                started: None,
                errors: 0,
                starts: 0,
            }),
    {
        OutSink {
            running: false,
            retry_at: Some(now_ms),
            backoff_ms: BACKOFF_INITIAL_MS,
            started: None,
            errors: 0,
            starts: 0,
        }
    }

    /// An output that failed: it waits, and longer the next time.
    pub open spec fn failed(self, now_ms: u64) -> OutSink {
        OutSink {
            running: false,
            retry_at: Some((now_ms + self.backoff_ms) as u64),
            backoff_ms: next_wait(self.backoff_ms, BACKOFF_MAX_MS),
            ..self
        }
    }

    /// The output has run long enough to forget its failures.
    pub open spec fn healthy(self, now_ms: u64) -> bool {
        self.started matches Some(t) && now_ms - t >= HEALTHY_RESET_MS
    }

    /// What to do with an output that reported errors or its end, and its
    /// state then. Only a running output reports.
    pub open spec fn polled(self, errors: u64, eos: bool, now_ms: u64) -> (SinkStep, OutSink) {
        let seen = OutSink { errors: counted(self.errors, errors as nat), ..self };
        if self.running && (errors > 0 || eos) {
            (SinkStep::Stop, seen.failed(now_ms))
        } else if self.running {
            (
                SinkStep::Keep,
                OutSink {
                    backoff_ms: if self.healthy(now_ms) {
                        BACKOFF_INITIAL_MS
                    } else {
                        self.backoff_ms
                    },
                    ..seen
                },
            )
        } else if self.retry_at matches Some(t) && now_ms >= t {
            (SinkStep::Build, self)
        } else {
            (SinkStep::Keep, self)
        }
    }

    /// Waits are real and not endless.
    pub open spec fn wf(self) -> bool {
        0 < self.backoff_ms <= BACKOFF_MAX_MS
    }

    /// Called periodically with what the output has reported since.
    pub fn poll(&mut self, errors: u64, eos: bool, now_ms: u64) -> (r: SinkStep)
        requires
            old(self).wf(),
            now_ms + BACKOFF_MAX_MS <= u64::MAX,
        ensures
            (r, *final(self)) == old(self).polled(errors, eos, now_ms),
            final(self).wf(),
    {
        if self.running {
            self.errors = count(self.errors, errors);
            if errors > 0 || eos {
                self.running = false;
                self.retry_at = Some(now_ms + self.backoff_ms);
                self.backoff_ms = double_wait(self.backoff_ms, BACKOFF_MAX_MS);
                return SinkStep::Stop;
            }
            if let Some(t) = self.started {
                if now_ms >= t && now_ms - t >= HEALTHY_RESET_MS {
                    self.backoff_ms = BACKOFF_INITIAL_MS;
                }
            }
            return SinkStep::Keep;
        }
        match self.retry_at {
            Some(t) => if now_ms >= t {
                SinkStep::Build
            } else {
                SinkStep::Keep
            },
            None => SinkStep::Keep,
        }
    }

    /// Reports whether the output could be built.
    pub fn built(&mut self, ok: bool, now_ms: u64)
        requires
            old(self).wf(),
            now_ms + BACKOFF_MAX_MS <= u64::MAX,
        ensures
            *final(self) == if ok {
                OutSink {
                    running: true,
                    retry_at: None,
                    started: Some(now_ms),
                    starts: counted(old(self).starts, 1),
                    ..*old(self)
                }
            } else {
                OutSink {
                    errors: counted(old(self).errors, 1),
                    retry_at: Some((now_ms + old(self).backoff_ms) as u64),
                    backoff_ms: next_wait(old(self).backoff_ms, BACKOFF_MAX_MS),
                    ..*old(self)
                }
            },
            final(self).wf(),
    {
        if ok {
            self.starts = count(self.starts, 1);
            self.running = true;
            self.retry_at = None;
            self.started = Some(now_ms);
        } else {
            self.errors = count(self.errors, 1);
            self.retry_at = Some(now_ms + self.backoff_ms);
            self.backoff_ms = double_wait(self.backoff_ms, BACKOFF_MAX_MS);
        }
    }

    /// Stops the output for good.
    pub fn stop(&mut self)
        ensures
            *final(self) == (OutSink { running: false, retry_at: None, ..*old(self) }),
    {
        self.running = false;
        self.retry_at = None;
    }

    /// A snapshot of the output.
    pub fn stats(&self, url: &str) -> (r: OutputStats)
        ensures
            r.url@ == redacted(url@),
            r.running == self.running,
            r.errors == self.errors,
            r.starts == self.starts,
    {
        OutputStats {
            url: redact(url),
            running: self.running,
            errors: self.errors,
            starts: self.starts,
        }
    }
}

/// The video codecs that can be passed through.
#[derive(Clone, Copy, Debug, PartialEq, Eq, Structural)]
pub enum Codec {
    H264,
    Hevc,
}

/// What a stream of the input is.
#[derive(Clone, Copy, Debug, PartialEq, Eq, Structural)]
pub enum StreamKind {
    Video(Codec),
    Audio,
    Other,
}

/// A stream by the name of its format.
pub open spec fn stream_of(name: Seq<char>) -> StreamKind {
    if name == "video/x-h264"@ {
        StreamKind::Video(Codec::H264)
    } else if name == "video/x-h265"@ {
        StreamKind::Video(Codec::Hevc)
    } else if "audio/"@.is_prefix_of(name) {
        StreamKind::Audio
    } else {
        StreamKind::Other
    }
}

/// Tells a stream by the name of its format.
pub fn stream_kind(name: &str) -> (r: StreamKind)
    ensures
        r == stream_of(name@),
{
    if same_text(name, "video/x-h264") {
        return StreamKind::Video(Codec::H264);
    }
    if same_text(name, "video/x-h265") {
        return StreamKind::Video(Codec::Hevc);
    }
    let chars = to_chars(name);
    let prefix = to_chars("audio/");
    if starts_with(chars.as_slice(), prefix.as_slice()) {
        StreamKind::Audio
    } else {
        StreamKind::Other
    }
}

/// How an audio stream is parsed.
#[derive(Clone, Copy, Debug, PartialEq, Eq, Structural)]
pub enum AudioParser {
    Aac,
    MpegAudio,
    Ac3,
    /// Unknown: passed through without a parser.
    Plain,
}

/// The parser for an audio format.
pub open spec fn parser_of(name: Seq<char>, mpeg_version: Option<i32>) -> AudioParser {
    if name == "audio/mpeg"@ {
        if mpeg_version == Some(2i32) || mpeg_version == Some(4i32) {
            AudioParser::Aac
        } else {
            AudioParser::MpegAudio
        }
    } else if name == "audio/x-ac3"@ || name == "audio/x-eac3"@ {
        AudioParser::Ac3
    } else {
        AudioParser::Plain
    }
}

/// Picks the parser for an audio format. Only AAC can be tapped.
pub fn audio_parser(name: &str, mpeg_version: Option<i32>) -> (r: AudioParser)
    ensures
        r == parser_of(name@, mpeg_version),
{
    if same_text(name, "audio/mpeg") {
        match mpeg_version {
            Some(v) => if v == 2 || v == 4 {
                AudioParser::Aac
            } else {
                AudioParser::MpegAudio
            },
            None => AudioParser::MpegAudio,
        }
    } else if same_text(name, "audio/x-ac3") || same_text(name, "audio/x-eac3") {
        AudioParser::Ac3
    } else {
        AudioParser::Plain
    }
}

/// Where an audio stream goes.
#[derive(Clone, Copy, Debug, PartialEq, Eq, Structural)]
pub struct AudioPlan {
    pub parser: AudioParser,
    pub to_output: bool,
    pub to_tap: bool,
    /// The stream was to be tapped, but is in a known format other than AAC.
    pub tap_refused: bool,
}

/// Where the audio stream with a number goes: the first to the output, the one
/// asked for to the tap if it is AAC, others nowhere. An unknown format is only
/// passed through.
pub open spec fn plan_of(
    name: Seq<char>,
    mpeg_version: Option<i32>,
    index: u32,
    track: u32,
) -> Option<AudioPlan> {
    let parser = parser_of(name, mpeg_version);
    if index != 0 && index != track {
        None
    } else {
        Some(
            AudioPlan {
                parser,
                to_output: index == 0,
                to_tap: index == track && parser == AudioParser::Aac,
                tap_refused: index == track && (parser == AudioParser::MpegAudio || parser
                    == AudioParser::Ac3),
            },
        )
    }
}

/// Decides where an audio stream goes.
pub fn audio_plan(name: &str, mpeg_version: Option<i32>, index: u32, track: u32) -> (r: Option<
    AudioPlan,
>)
    ensures
        r == plan_of(name@, mpeg_version, index, track),
{
    if index != 0 && index != track {
        return None;
    }
    let parser = audio_parser(name, mpeg_version);
    let tapped = index == track;
    Some(
        AudioPlan {
            parser,
            to_output: index == 0,
            to_tap: tapped && parser == AudioParser::Aac,
            tap_refused: tapped && (parser == AudioParser::MpegAudio || parser
                == AudioParser::Ac3),
        },
    )
}

/// RTMP carries H.264 and AAC only.
pub fn rtmp_carries(name: &str) -> (r: bool)
    ensures
        r == (name@ == "video/x-h264"@ || name@ == "audio/mpeg"@),
{
    same_text(name, "video/x-h264") || same_text(name, "audio/mpeg")
}

/// Outputs are isolated and always come back: one that failed is built again
/// once its wait is over, and the wait never grows past the cap.
pub proof fn law_failed_outputs_come_back(s: OutSink, errors: u64, eos: bool, t: u64, later: u64)
    requires
        s.wf(),
        s.running,
        errors > 0 || eos,
        t + s.backoff_ms <= later,
    ensures
        ({
            let down = s.polled(errors, eos, t).1;
            &&& !down.running
            &&& down.polled(0, false, later).0 == SinkStep::Build
            &&& down.backoff_ms <= 10_000
        }),
{
}

} // verus!
