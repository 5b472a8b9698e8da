//! The configuration: every setting has a default, and a configuration is
//! checked as a whole.
use vstd::prelude::*;

use crate::chars::{
    cut, lemma_found_at, same_chars, split_once, stands_at, to_chars, trim, trimmed, trimmed_end,
    trimmed_start,
};
use crate::decimal::{decimal, push_decimal, push_signed, push_text, signed_decimal};

verus! {

/// The whole configuration.
#[derive(Clone, Debug, PartialEq)]
pub struct Config {
    pub input: Input,
    pub outputs: Vec<Output>,
    pub video: Video,
    pub captions: Captions,
    pub languages: Vec<Language>,
    pub asr: Asr,
    pub vad: Vad,
    pub translate: Translate,
    pub filter: Filter,
    pub audio: Audio,
    pub srt: Srt,
    pub gpu: Gpu,
    pub web: Web,
    pub degrade: Degrade,
}

#[derive(Clone, Debug, PartialEq)]
pub struct Input {
    /// `srt://`, `udp://` or `rtp://` URL.
    pub url: String,
}

#[derive(Clone, Debug, PartialEq)]
pub struct Output {
    /// `srt://`, `udp://` or `rtmp(s)://` URL.
    pub url: String,
}

#[derive(Clone, Copy, Debug, PartialEq, Eq)]
pub struct Video {
    /// Hold video back so captions line up with speech. 0 = pass-through.
    pub delay_ms: u32,
}

#[derive(Clone, Copy, Debug, PartialEq, Eq, Structural)]
pub enum CaptionMode {
    RollUp,
    PopOn,
    PaintOn,
}

#[derive(Clone, Copy, Debug, PartialEq, Eq)]
pub struct Captions {
    pub offset_ms: i32,
    pub mode: CaptionMode,
    pub rows: u8,
    pub max_chars_per_line: u8,
    pub clear_after_ms: u32,
}

/// CEA-608 caption channel.
#[derive(Clone, Copy, Debug, PartialEq, Eq, Hash, Structural)]
pub enum Cc608 {
    Cc1,
    Cc2,
    Cc3,
    Cc4,
}

/// One caption language and where it is carried.
#[derive(Clone, Debug, PartialEq)]
pub struct Language {
    /// ISO 639-1 code, e.g. `en`.
    pub code: String,
    /// The spoken language; exactly one language must be the source.
    pub source: bool,
    /// CEA-608 channel, if any.
    pub cc608: Option<Cc608>,
    /// CEA-708 service number (1 to 6), if any.
    pub cea708_service: Option<u8>,
    /// Lower numbers are kept longest when shedding load.
    pub priority: u8,
}

#[derive(Clone, Debug, PartialEq)]
pub struct Asr {
    pub model: String,
    pub chunk_ms: u32,
    pub stability_passes: u8,
}

/// A single-precision number: its IEEE 754 bits and how it is written.
#[derive(Clone, Debug, PartialEq)]
pub struct Single {
    pub bits: u32,
    pub shown: String,
}

#[derive(Clone, Debug, PartialEq)]
pub struct Vad {
    pub threshold: Single,
}

#[derive(Clone, Copy, Debug, PartialEq, Eq, Structural)]
pub enum Segment {
    Word,
    Clause,
    Sentence,
}

#[derive(Clone, Copy, Debug, PartialEq, Eq)]
pub struct Translate {
    pub segment: Segment,
    pub max_wait_ms: u32,
}

#[derive(Clone, Copy, Debug, PartialEq, Eq, Structural)]
pub enum MaskStyle {
    Asterisks,
    FirstLetter,
    Bleep,
    Drop,
}

#[derive(Clone, Debug, PartialEq)]
pub struct Filter {
    /// Built-in explicit-language filter, applied in every language.
    pub profanity: bool,
    pub mask_style: MaskStyle,
    /// Extra words to mask, in any caption language. `*` matches any letters.
    pub blocklist: Vec<String>,
    /// Words never masked, even if a list matches them.
    pub allowlist: Vec<String>,
}

#[derive(Clone, Copy, Debug, PartialEq, Eq)]
pub struct Audio {
    /// Audio track index in the input (0 = first).
    pub track: u32,
    /// Channel to transcribe; `None` downmixes all channels.
    pub channel: Option<u32>,
}

#[derive(Clone, Copy, Debug, PartialEq, Eq)]
pub struct Srt {
    pub latency_ms: u32,
}

#[derive(Clone, Copy, Debug, PartialEq, Eq)]
pub struct Gpu {
    /// CUDA device index; `None` picks automatically and falls back to CPU.
    pub device: Option<u32>,
    /// Upper limit on GPU memory for models; `None` means no limit.
    pub max_vram_mb: Option<u32>,
}

#[derive(Clone, Debug, PartialEq)]
pub struct Web {
    /// IP address in its usual notation.
    pub bind: String,
    pub port: u16,
    /// Required when `bind` is not a loopback address. Prefer the
    /// `MULTI_WEB_TOKEN` environment variable over storing it here.
    pub token: Option<String>,
}

#[derive(Clone, Copy, Debug, PartialEq, Eq, Structural)]
pub enum DegradeStep {
    Languages,
    Model,
    SourceOnly,
    PassThrough,
}

#[derive(Clone, Debug, PartialEq)]
pub struct Degrade {
    pub max_lag_ms: u32,
    pub order: Vec<DegradeStep>,
}

/// A single validation problem, keyed by the setting's dotted path.
#[derive(Clone, Debug, PartialEq, Eq)]
pub struct Issue {
    pub path: String,
    pub message: String,
}

impl Default for Input {
    fn default() -> (r: Self)
        ensures
            r.url@ == "srt://0.0.0.0:9000?mode=listener"@,
    {
        Input { url: "srt://0.0.0.0:9000?mode=listener".to_owned() }
    }
}

impl Default for Video {
    fn default() -> (r: Self)
        ensures
            r == (Video { delay_ms: 0 }),
    {
        Video { delay_ms: 0 }
    }
}

impl Default for Captions {
    fn default() -> (r: Self)
        ensures
            r == (Captions {
                offset_ms: 0,
                mode: CaptionMode::RollUp,
                rows: 3,
                max_chars_per_line: 32,
                clear_after_ms: 4000,
            }),
    {
        Captions {
            offset_ms: 0,
            mode: CaptionMode::RollUp,
            rows: 3,
            max_chars_per_line: 32,
            clear_after_ms: 4000,
        }
    }
}

impl Default for Asr {
    fn default() -> (r: Self)
        ensures
            r.model@ == "nemotron-3.5-streaming"@,
            r.chunk_ms == 560,
            r.stability_passes == 2,
    {
        Asr { model: "nemotron-3.5-streaming".to_owned(), chunk_ms: 560, stability_passes: 2 }
    }
}

impl Default for Vad {
    fn default() -> (r: Self)
        ensures
            r.threshold.bits == 0x3F00_0000,
            r.threshold.shown@ == "0.5"@,
    {
        Vad { threshold: Single { bits: 0x3F00_0000, shown: "0.5".to_owned() } }
    }
}

impl Default for Translate {
    fn default() -> (r: Self)
        ensures
            r == (Translate { segment: Segment::Clause, max_wait_ms: 800 }),
    {
        Translate { segment: Segment::Clause, max_wait_ms: 800 }
    }
}

impl Default for Filter {
    fn default() -> (r: Self)
        ensures
            r.profanity,
            r.mask_style == MaskStyle::FirstLetter,
            r.blocklist@.len() == 0,
            r.allowlist@.len() == 0,
    {
        Filter {
            profanity: true,
            mask_style: MaskStyle::FirstLetter,
            blocklist: Vec::new(),
            allowlist: Vec::new(),
        }
    }
}

impl Default for Audio {
    fn default() -> (r: Self)
        ensures
            r == (Audio { track: 0, channel: None }),
    {
        Audio { track: 0, channel: None }
    }
}

impl Default for Srt {
    fn default() -> (r: Self)
        ensures
            r == (Srt { latency_ms: 120 }),
    {
        Srt { latency_ms: 120 }
    }
}

impl Default for Gpu {
    fn default() -> (r: Self)
        ensures
            r == (Gpu { device: None, max_vram_mb: None }),
    {
        Gpu { device: None, max_vram_mb: None }
    }
}

impl Default for Web {
    fn default() -> (r: Self)
        ensures
            r.bind@ == "127.0.0.1"@,
            r.port == 8480,
            r.token is None,
    {
        Web { bind: "127.0.0.1".to_owned(), port: 8480, token: None }
    }
}

impl Default for Degrade {
    fn default() -> (r: Self)
        ensures
            r.max_lag_ms == 5000,
            r.order@ == seq![
                DegradeStep::Languages,
                DegradeStep::Model,
                DegradeStep::SourceOnly,
                DegradeStep::PassThrough,
            ],
    {
        let mut order: Vec<DegradeStep> = Vec::new();
        order.push(DegradeStep::Languages);
        order.push(DegradeStep::Model);
        order.push(DegradeStep::SourceOnly);
        order.push(DegradeStep::PassThrough);
        Degrade { max_lag_ms: 5000, order }
    }
}

/// What a language entry holds.
pub open spec fn language_parts(l: Language) -> (
    Seq<char>,
    bool,
    Option<Cc608>,
    Option<u8>,
    u8,
) {
    (l.code@, l.source, l.cc608, l.cea708_service, l.priority)
}

/// The default languages: English on CC1 and 708 service 1, Spanish on CC3 and
/// service 2, French and German on services 3 and 4 alone.
pub open spec fn are_default_languages(list: Seq<Language>) -> bool {
    &&& list.len() == 4
    &&& language_parts(list[0]) == ("en"@, true, Some(Cc608::Cc1), Some(1u8), 0u8)
    &&& language_parts(list[1]) == ("es"@, false, Some(Cc608::Cc3), Some(2u8), 1u8)
    &&& language_parts(list[2]) == ("fr"@, false, None::<Cc608>, Some(3u8), 2u8)
    &&& language_parts(list[3]) == ("de"@, false, None::<Cc608>, Some(4u8), 3u8)
}

fn language(code: &str, source: bool, cc608: Option<Cc608>, service: u8, priority: u8) -> (r:
    Language)
    ensures
        language_parts(r) == (code@, source, cc608, Some(service), priority),
{
    Language { code: code.to_owned(), source, cc608, cea708_service: Some(service), priority }
}

/// English on CC1 and 708 service 1, Spanish on CC3 and service 2, French and
/// German on 708 alone.
pub fn default_languages() -> (r: Vec<Language>)
    ensures
        are_default_languages(r@),
{
    let mut list: Vec<Language> = Vec::new();
    list.push(language("en", true, Some(Cc608::Cc1), 1, 0));
    list.push(language("es", false, Some(Cc608::Cc3), 2, 1));
    list.push(language("fr", false, None, 3, 2));
    list.push(language("de", false, None, 4, 3));
    list
}


impl Default for Config {
    fn default() -> (r: Self)
        ensures
            r.input.url@ == "srt://0.0.0.0:9000?mode=listener"@,
            r.outputs@.len() == 1,
            r.outputs@[0].url@ == "srt://0.0.0.0:9001?mode=listener"@,
            r.video == (Video { delay_ms: 0 }),
            r.captions == (Captions {
                offset_ms: 0,
                mode: CaptionMode::RollUp,
                rows: 3,
                max_chars_per_line: 32,
                clear_after_ms: 4000,
            }),
            are_default_languages(r.languages@),
            r.asr.model@ == "nemotron-3.5-streaming"@,
            r.asr.chunk_ms == 560,
            r.asr.stability_passes == 2,
            r.vad.threshold.bits == 0x3F00_0000,
            r.vad.threshold.shown@ == "0.5"@,
            r.translate == (Translate { segment: Segment::Clause, max_wait_ms: 800 }),
            r.filter.profanity,
            r.filter.mask_style == MaskStyle::FirstLetter,
            r.filter.blocklist@.len() == 0,
            r.filter.allowlist@.len() == 0,
            r.audio == (Audio { track: 0, channel: None }),
            r.srt == (Srt { latency_ms: 120 }),
            r.gpu == (Gpu { device: None, max_vram_mb: None }),
            r.web.bind@ == "127.0.0.1"@,
            r.web.port == 8480,
            r.web.token is None,
            r.degrade.max_lag_ms == 5000,
            r.degrade.order@ == seq![
                DegradeStep::Languages,
                DegradeStep::Model,
                DegradeStep::SourceOnly,
                DegradeStep::PassThrough,
            ],
            r.valid(),
    {
        let mut outputs: Vec<Output> = Vec::new();
        outputs.push(Output { url: "srt://0.0.0.0:9001?mode=listener".to_owned() });
        let r = Config {
            input: Input::default(),
            outputs,
            video: Video::default(),
            captions: Captions::default(),
            languages: default_languages(),
            asr: Asr::default(),
            vad: Vad::default(),
            translate: Translate::default(),
            filter: Filter::default(),
            audio: Audio::default(),
            srt: Srt::default(),
            gpu: Gpu::default(),
            web: Web::default(),
            degrade: Degrade::default(),
        };
        proof {
            lemma_default_urls();
            lemma_default_model();
            lemma_default_codes();
            let langs = r.languages@;
            assert(language_parts(langs[0]).1);
            assert(one_source(langs));
            assert forall|i: int| 0 <= i < langs.len() implies language_ok(
                langs,
                #[trigger] langs[i],
                i,
            ) by {}
        }
        r
    }
}

/// What an out-of-range setting is told.
pub open spec fn range_message(lo: Seq<char>, hi: Seq<char>, x: Seq<char>) -> Seq<char> {
    "must be between "@ + lo + " and "@ + hi + " (is "@ + x + ")"@
}

/// A problem: the setting's path and what is wrong.
pub type Problem = (Seq<char>, Seq<char>);

/// The problem, if there is one.
pub open spec fn when(wrong: bool, path: Seq<char>, message: Seq<char>) -> Seq<Problem> {
    if wrong {
        seq![(path, message)]
    } else {
        seq![]
    }
}

/// The problem of a number that must lie in a range.
pub open spec fn range_problem(path: Seq<char>, x: int, lo: int, hi: int) -> Seq<Problem> {
    when(
        x < lo || x > hi,
        path,
        range_message(signed_decimal(lo), signed_decimal(hi), signed_decimal(x)),
    )
}

/// The single-precision number is not below 0.1 and not above 0.9: positive
/// numbers are ordered as their bits are, and not-a-number is neither.
pub open spec fn threshold_in_range(bits: u32) -> bool {
    0x3DCC_CCCD <= bits <= 0x3F66_6666 || not_a_number(bits)
}

/// The bits of a single-precision number that is none.
pub open spec fn not_a_number(bits: u32) -> bool {
    0x7F80_0000 < bits < 0x8000_0000 || bits > 0xFF80_0000
}

/// The URL has one of the schemes and something behind it.
pub open spec fn url_ok(url: Seq<char>, schemes: Seq<Seq<char>>) -> bool {
    cut(url, "://"@) matches Some(p) && schemes.contains(p.0) && p.1.len() > 0
}

/// The schemes, each but the last followed by `://, `.
pub open spec fn listed_schemes(schemes: Seq<Seq<char>>) -> Seq<char>
    decreases schemes.len(),
{
    if schemes.len() == 0 {
        seq![]
    } else if schemes.len() == 1 {
        schemes[0]
    } else {
        listed_schemes(schemes.drop_last()) + "://, "@ + schemes.last()
    }
}

/// The problem of a setting that must be a URL of certain schemes.
pub open spec fn url_problem(path: Seq<char>, url: Seq<char>, schemes: Seq<Seq<char>>) -> Seq<
    Problem,
> {
    when(
        !url_ok(url, schemes),
        path,
        "expected a URL starting with "@ + listed_schemes(schemes) + "://"@,
    )
}

/// The schemes an input may have.
pub open spec fn input_schemes() -> Seq<Seq<char>> {
    seq!["srt"@, "udp"@, "rtp"@]
}

/// The schemes an output may have.
pub open spec fn output_schemes() -> Seq<Seq<char>> {
    seq!["srt"@, "udp"@, "rtmp"@, "rtmps"@]
}

/// The path of a list item's field.
pub open spec fn item_path(list: Seq<char>, i: int, field: Seq<char>) -> Seq<char> {
    list + "["@ + decimal(i as nat) + "]."@ + field
}

/// The problems of the first outputs.
pub open spec fn output_problems(outputs: Seq<Output>) -> Seq<Problem>
    decreases outputs.len(),
{
    if outputs.len() == 0 {
        seq![]
    } else {
        output_problems(outputs.drop_last()) + url_problem(
            item_path("outputs"@, outputs.len() - 1, "url"@),
            outputs.last().url@,
            output_schemes(),
        )
    }
}

/// Exactly one language is the source.
pub open spec fn one_source(list: Seq<Language>) -> bool {
    exists|i: int|
        0 <= i < list.len() && #[trigger] list[i].source && forall|j: int|
            0 <= j < list.len() && j != i ==> !(#[trigger] list[j].source)
}

/// Two lowercase ASCII letters.
pub open spec fn code_ok(code: Seq<char>) -> bool {
    code.len() == 2 && lowercase_letter(code[0]) && lowercase_letter(code[1])
}

pub open spec fn lowercase_letter(c: char) -> bool {
    'a' <= c <= 'z'
}

/// An earlier language has the code.
pub open spec fn code_taken(list: Seq<Language>, code: Seq<char>) -> bool {
    exists|j: int| 0 <= j < list.len() && #[trigger] list[j].code@ == code
}

/// An earlier language has the channel.
pub open spec fn channel_taken(list: Seq<Language>, channel: Cc608) -> bool {
    exists|j: int| 0 <= j < list.len() && #[trigger] list[j].cc608 == Some(channel)
}

/// An earlier language has the service.
pub open spec fn service_taken(list: Seq<Language>, service: u8) -> bool {
    exists|j: int| 0 <= j < list.len() && #[trigger] list[j].cea708_service == Some(service)
}

/// The problems of a language behind those before it.
pub open spec fn language_problems(before: Seq<Language>, l: Language) -> Seq<Problem> {
    let i = before.len() as int;
    let at_code = item_path("languages"@, i, "code"@);
    let at_channel = item_path("languages"@, i, "cc608"@);
    let at_service = item_path("languages"@, i, "cea708_service"@);
    when(
        !code_ok(l.code@),
        at_code,
        "use a two-letter lowercase ISO 639-1 code, e.g. \"en\""@,
    ) + when(
        code_ok(l.code@) && code_taken(before, l.code@),
        at_code,
        "language listed twice"@,
    ) + when(
        l.cc608 is None && l.cea708_service is None,
        at_channel,
        "carry the language on a 608 channel, a 708 service, or both"@,
    ) + when(
        l.cc608 is Some && channel_taken(before, l.cc608->0),
        at_channel,
        "channel already used by another language"@,
    ) + when(
        l.cea708_service is Some && !(1 <= l.cea708_service->0 <= 6),
        at_service,
        "708 service must be 1\u{2013}6"@,
    ) + when(
        l.cea708_service is Some && 1 <= l.cea708_service->0 <= 6 && service_taken(
            before,
            l.cea708_service->0,
        ),
        at_service,
        "service already used by another language"@,
    )
}

/// The problems of the first languages, one by one.
pub open spec fn each_language_problems(list: Seq<Language>) -> Seq<Problem>
    decreases list.len(),
{
    if list.len() == 0 {
        seq![]
    } else {
        each_language_problems(list.drop_last()) + language_problems(list.drop_last(), list.last())
    }
}

/// The problems of the language list.
pub open spec fn languages_problems(list: Seq<Language>) -> Seq<Problem> {
    if list.len() == 0 {
        seq![("languages"@, "at least one language is required"@)]
    } else {
        when(
            !one_source(list),
            "languages"@,
            "exactly one language must be marked as the source"@,
        ) + each_language_problems(list)
    }
}

/// A language is carried on a 608 channel.
pub open spec fn any_608(list: Seq<Language>) -> bool {
    exists|i: int| 0 <= i < list.len() && #[trigger] list[i].cc608 is Some
}

/// One problem for each step that came before.
pub open spec fn order_problems(order: Seq<DegradeStep>) -> Seq<Problem>
    decreases order.len(),
{
    if order.len() == 0 {
        seq![]
    } else {
        order_problems(order.drop_last()) + when(
            order.drop_last().contains(order.last()),
            "degrade.order"@,
            "each step may appear only once"@,
        )
    }
}

/// The language is in order among the others.
pub open spec fn language_ok(list: Seq<Language>, l: Language, i: int) -> bool {
    &&& code_ok(l.code@)
    &&& l.cc608 is Some || l.cea708_service is Some
    &&& l.cea708_service matches Some(service) ==> 1 <= service <= 6
    &&& forall|j: int|
        0 <= j < i ==> {
            &&& (#[trigger] list[j]).code@ != l.code@
            &&& l.cc608 is Some ==> list[j].cc608 != l.cc608
            &&& l.cea708_service is Some ==> list[j].cea708_service != l.cea708_service
        }
}

impl Config {
    /// The problems of the caption settings.
    pub open spec fn caption_problems(&self) -> Seq<Problem> {
        range_problem("captions.offset_ms"@, self.captions.offset_ms as int, -5_000, 5_000)
            + range_problem("captions.rows"@, self.captions.rows as int, 1, 4) + range_problem(
            "captions.max_chars_per_line"@,
            self.captions.max_chars_per_line as int,
            20,
            42,
        ) + when(
            self.captions.max_chars_per_line > 32 && any_608(self.languages@),
            "captions.max_chars_per_line"@,
            "CEA-608 allows at most 32 characters per line"@,
        ) + range_problem(
            "captions.clear_after_ms"@,
            self.captions.clear_after_ms as int,
            1_000,
            30_000,
        )
    }

    /// The problems of the speech settings.
    pub open spec fn speech_problems(&self) -> Seq<Problem> {
        when(
            trimmed(self.asr.model@).len() == 0,
            "asr.model"@,
            "a model name is required"@,
        ) + range_problem("asr.chunk_ms"@, self.asr.chunk_ms as int, 160, 3_000) + range_problem(
            "asr.stability_passes"@,
            self.asr.stability_passes as int,
            1,
            3,
        ) + when(
            !threshold_in_range(self.vad.threshold.bits),
            "vad.threshold"@,
            range_message("0.1"@, "0.9"@, self.vad.threshold.shown@),
        )
    }

    /// Every problem, in the order in which the settings are checked.
    pub open spec fn problems(&self) -> Seq<Problem> {
        url_problem("input.url"@, self.input.url@, input_schemes()) + when(
            self.outputs@.len() == 0,
            "outputs"@,
            "at least one output is required"@,
        ) + output_problems(self.outputs@) + range_problem(
            "video.delay_ms"@,
            self.video.delay_ms as int,
            0,
            10_000,
        ) + self.caption_problems() + languages_problems(self.languages@) + self.speech_problems()
            + range_problem(
            "translate.max_wait_ms"@,
            self.translate.max_wait_ms as int,
            200,
            3_000,
        ) + range_problem("srt.latency_ms"@, self.srt.latency_ms as int, 20, 8_000) + when(
            self.web.port == 0,
            "web.port"@,
            "port must be between 1 and 65535"@,
        ) + range_problem("degrade.max_lag_ms"@, self.degrade.max_lag_ms as int, 1_000, 30_000)
            + order_problems(self.degrade.order@)
    }

    /// Every setting is in its range, and the settings fit together.
    pub open spec fn valid(&self) -> bool {
        &&& url_ok(self.input.url@, input_schemes())
        &&& self.outputs@.len() > 0
        &&& forall|i: int|
            0 <= i < self.outputs@.len() ==> url_ok(
                (#[trigger] self.outputs@[i]).url@,
                output_schemes(),
            )
        &&& self.video.delay_ms <= 10_000
        &&& -5_000 <= self.captions.offset_ms <= 5_000
        &&& 1 <= self.captions.rows <= 4
        &&& 20 <= self.captions.max_chars_per_line <= 42
        &&& any_608(self.languages@) ==> self.captions.max_chars_per_line <= 32
        &&& 1_000 <= self.captions.clear_after_ms <= 30_000
        &&& one_source(self.languages@)
        &&& forall|i: int|
            0 <= i < self.languages@.len() ==> language_ok(
                self.languages@,
                #[trigger] self.languages@[i],
                i,
            )
        &&& trimmed(self.asr.model@).len() > 0
        &&& 160 <= self.asr.chunk_ms <= 3_000
        &&& 1 <= self.asr.stability_passes <= 3
        &&& threshold_in_range(self.vad.threshold.bits)
        &&& 200 <= self.translate.max_wait_ms <= 3_000
        &&& 20 <= self.srt.latency_ms <= 8_000
        &&& self.web.port != 0
        &&& 1_000 <= self.degrade.max_lag_ms <= 30_000
        &&& forall|i: int, j: int|
            0 <= i < j < self.degrade.order@.len() ==> self.degrade.order@[i]
                != self.degrade.order@[j]
    }
}


/// What the issues say.
pub open spec fn listed(issues: Seq<Issue>) -> Seq<Problem> {
    issues.map_values(|i: Issue| (i.path@, i.message@))
}

fn raise(issues: &mut Vec<Issue>, path: &str, message: &str)
    ensures
        listed(final(issues)@) == listed(old(issues)@) + seq![(path@, message@)],
{
    issues.push(Issue { path: path.to_owned(), message: message.to_owned() });
    assert(listed(issues@) =~= listed(old(issues)@) + seq![(path@, message@)]);
}

fn raise_when(issues: &mut Vec<Issue>, wrong: bool, path: &str, message: &str)
    ensures
        listed(final(issues)@) == listed(old(issues)@) + when(wrong, path@, message@),
{
    if wrong {
        raise(issues, path, message);
    } else {
        assert(listed(issues@) =~= listed(old(issues)@) + when(wrong, path@, message@));
    }
}

fn check_range(issues: &mut Vec<Issue>, path: &str, x: i64, lo: i64, hi: i64)
    ensures
        listed(final(issues)@) == listed(old(issues)@) + range_problem(
            path@,
            x as int,
            lo as int,
            hi as int,
        ),
{
    if x < lo || x > hi {
        let mut m = String::new();
        push_text(&mut m, "must be between ");
        push_signed(&mut m, lo);
        push_text(&mut m, " and ");
        push_signed(&mut m, hi);
        push_text(&mut m, " (is ");
        push_signed(&mut m, x);
        push_text(&mut m, ")");
        proof {
            assert(m@ =~= range_message(
                signed_decimal(lo as int),
                signed_decimal(hi as int),
                signed_decimal(x as int),
            ));
        }
        raise(issues, path, m.as_str());
    } else {
        raise_when(issues, false, path, "");
    }
}

/// The texts of a list of string slices.
pub open spec fn slices(list: Seq<&str>) -> Seq<Seq<char>> {
    list.map_values(|s: &str| s@)
}

fn has_scheme(url: &str, schemes: &[&str]) -> (r: bool)
    ensures
        r == url_ok(url@, slices(schemes@)),
{
    let chars = to_chars(url);
    let mark = to_chars("://");
    match split_once(chars.as_slice(), mark.as_slice()) {
        Some((scheme, rest)) => {
            let mut i: usize = 0;
            while i < schemes.len()
                invariant
                    i <= schemes@.len(),
                    forall|j: int|
                        0 <= j < i ==> #[trigger] slices(schemes@)[j] != scheme@,
                    cut(url@, "://"@) == Some((scheme@, rest@)),
                decreases schemes.len() - i,
            {
                let name = to_chars(schemes[i]);
                assert(slices(schemes@)[i as int] == name@);
                if same_chars(scheme.as_slice(), name.as_slice()) {
                    assert(slices(schemes@).contains(scheme@));
                    return rest.len() > 0;
                }
                i += 1;
            }
            assert(!slices(schemes@).contains(scheme@));
            false
        },
        None => false,
    }
}

fn push_schemes(s: &mut String, schemes: &[&str])
    ensures
        final(s)@ == old(s)@ + listed_schemes(slices(schemes@)),
{
    let mut i: usize = 0;
    let ghost all = slices(schemes@);
    while i < schemes.len()
        invariant
            i <= schemes@.len(),
            all == slices(schemes@),
            s@ == old(s)@ + listed_schemes(all.take(i as int)),
        decreases schemes.len() - i,
    {
        let ghost before = s@;
        if i > 0 {
            push_text(s, "://, ");
        }
        push_text(s, schemes[i]);
        proof {
            let next = all.take(i + 1);
            assert(next.drop_last() =~= all.take(i as int));
            assert(next.last() == schemes@[i as int]@);
            assert(s@ =~= old(s)@ + listed_schemes(next));
        }
        i += 1;
    }
    assert(all.take(all.len() as int) =~= all);
}

fn check_url(issues: &mut Vec<Issue>, path: &str, url: &str, schemes: &[&str])
    ensures
        listed(final(issues)@) == listed(old(issues)@) + url_problem(
            path@,
            url@,
            slices(schemes@),
        ),
{
    let wrong = !has_scheme(url, schemes);
    let mut m = String::new();
    push_text(&mut m, "expected a URL starting with ");
    push_schemes(&mut m, schemes);
    push_text(&mut m, "://");
    assert(m@ =~= "expected a URL starting with "@ + listed_schemes(slices(schemes@)) + "://"@);
    raise_when(issues, wrong, path, m.as_str());
}

fn path_of(list: &str, i: usize, field: &str) -> (r: String)
    ensures
        r@ == item_path(list@, i as int, field@),
{
    let mut p = String::new();
    push_text(&mut p, list);
    push_text(&mut p, "[");
    push_decimal(&mut p, i as u64);
    push_text(&mut p, "].");
    push_text(&mut p, field);
    assert(p@ =~= item_path(list@, i as int, field@));
    p
}


fn check_outputs(issues: &mut Vec<Issue>, outputs: &Vec<Output>)
    ensures
        listed(final(issues)@) == listed(old(issues)@) + output_problems(outputs@),
{
    let mut i: usize = 0;
    assert(listed(issues@) =~= listed(old(issues)@) + output_problems(outputs@.take(0)));
    while i < outputs.len()
        invariant
            i <= outputs@.len(),
            listed(issues@) == listed(old(issues)@) + output_problems(outputs@.take(i as int)),
        decreases outputs.len() - i,
    {
        let path = path_of("outputs", i, "url");
        let schemes = ["srt", "udp", "rtmp", "rtmps"];
        check_url(issues, path.as_str(), outputs[i].url.as_str(), &schemes);
        proof {
            let next = outputs@.take(i + 1);
            assert(next.drop_last() =~= outputs@.take(i as int));
            assert(slices(schemes@) =~= output_schemes());
            assert(listed(issues@) =~= listed(old(issues)@) + output_problems(next));
        }
        i += 1;
    }
    assert(outputs@.take(outputs@.len() as int) =~= outputs@);
}

fn has_608(list: &Vec<Language>) -> (r: bool)
    ensures
        r == any_608(list@),
{
    let mut i: usize = 0;
    while i < list.len()
        invariant
            i <= list@.len(),
            forall|j: int| 0 <= j < i ==> (#[trigger] list@[j]).cc608 is None,
        decreases list.len() - i,
    {
        if list[i].cc608.is_some() {
            assert(list@[i as int].cc608 is Some);
            return true;
        }
        i += 1;
    }
    false
}

fn has_one_source(list: &Vec<Language>) -> (r: bool)
    ensures
        r == one_source(list@),
{
    let mut i: usize = 0;
    let mut first: Option<usize> = None;
    while i < list.len()
        invariant
            i <= list@.len(),
            match first {
                Some(k) => {
                    &&& k < i
                    &&& list@[k as int].source
                    &&& forall|j: int| 0 <= j < i && j != k ==> !(#[trigger] list@[j].source)
                },
                None => forall|j: int| 0 <= j < i ==> !(#[trigger] list@[j].source),
            },
        decreases list.len() - i,
    {
        if list[i].source {
            match first {
                Some(k) => {
                    assert(list@[k as int].source && list@[i as int].source && k != i);
                    assert(!one_source(list@));
                    return false;
                },
                None => {
                    first = Some(i);
                },
            }
        }
        i += 1;
    }
    match first {
        Some(k) => {
            assert(list@[k as int].source);
            true
        },
        None => false,
    }
}

fn is_code(code: &str) -> (r: bool)
    ensures
        r == code_ok(code@),
{
    let c = to_chars(code);
    c.len() == 2 && is_letter(c[0]) && is_letter(c[1])
}

fn is_letter(c: char) -> (r: bool)
    ensures
        r == lowercase_letter(c),
{
    'a' <= c && c <= 'z'
}

fn check_language(issues: &mut Vec<Issue>, list: &Vec<Language>, i: usize)
    requires
        i < list@.len(),
    ensures
        listed(final(issues)@) == listed(old(issues)@) + language_problems(
            list@.take(i as int),
            list@[i as int],
        ),
{
    let before = Ghost(list@.take(i as int));
    let l = &list[i];
    let mut same_code = false;
    let mut same_channel = false;
    let mut same_service = false;
    let mut j: usize = 0;
    while j < i
        invariant
            j <= i < list@.len(),
            *l == list@[i as int],
            before@ == list@.take(i as int),
            same_code <==> exists|k: int| 0 <= k < j && (#[trigger] before@[k]).code@ == l.code@,
            same_channel <==> l.cc608 is Some && exists|k: int|
                0 <= k < j && (#[trigger] before@[k]).cc608 == l.cc608,
            same_service <==> l.cea708_service is Some && exists|k: int|
                0 <= k < j && (#[trigger] before@[k]).cea708_service == l.cea708_service,
        decreases i - j,
    {
        let other = &list[j];
        assert(before@[j as int] == *other);
        if other.code == l.code {
            same_code = true;
        }
        match (l.cc608, other.cc608) {
            (Some(a), Some(b)) => {
                if a == b {
                    same_channel = true;
                }
            },
            _ => {},
        }
        match (l.cea708_service, other.cea708_service) {
            (Some(a), Some(b)) => {
                if a == b {
                    same_service = true;
                }
            },
            _ => {},
        }
        j += 1;
    }
    let ok = is_code(l.code.as_str());
    let nowhere = l.cc608.is_none() && l.cea708_service.is_none();
    let in_range = match l.cea708_service {
        Some(service) => 1 <= service && service <= 6,
        None => true,
    };
    let at_code = path_of("languages", i, "code");
    let at_channel = path_of("languages", i, "cc608");
    let at_service = path_of("languages", i, "cea708_service");
    proof {
        assert(same_code == code_taken(before@, l.code@));
        assert(same_channel == (l.cc608 is Some && channel_taken(before@, l.cc608->0)));
        assert(same_service == (l.cea708_service is Some && service_taken(
            before@,
            l.cea708_service->0,
        )));
    }
    raise_when(
        issues,
        !ok,
        at_code.as_str(),
        "use a two-letter lowercase ISO 639-1 code, e.g. \"en\"",
    );
    raise_when(issues, ok && same_code, at_code.as_str(), "language listed twice");
    raise_when(
        issues,
        nowhere,
        at_channel.as_str(),
        "carry the language on a 608 channel, a 708 service, or both",
    );
    raise_when(
        issues,
        same_channel,
        at_channel.as_str(),
        "channel already used by another language",
    );
    raise_when(issues, !in_range, at_service.as_str(), "708 service must be 1\u{2013}6");
    raise_when(
        issues,
        in_range && same_service,
        at_service.as_str(),
        "service already used by another language",
    );
    assert(listed(issues@) =~= listed(old(issues)@) + language_problems(
        before@,
        list@[i as int],
    ));
}

fn check_languages(issues: &mut Vec<Issue>, list: &Vec<Language>)
    ensures
        listed(final(issues)@) == listed(old(issues)@) + languages_problems(list@),
{
    if list.len() == 0 {
        raise(issues, "languages", "at least one language is required");
        return;
    }
    let wrong = !has_one_source(list);
    raise_when(
        issues,
        wrong,
        "languages",
        "exactly one language must be marked as the source",
    );
    let ghost start = listed(issues@);
    let mut i: usize = 0;
    assert(listed(issues@) =~= start + each_language_problems(list@.take(0)));
    while i < list.len()
        invariant
            i <= list@.len(),
            listed(issues@) == start + each_language_problems(list@.take(i as int)),
        decreases list.len() - i,
    {
        check_language(issues, list, i);
        proof {
            let next = list@.take(i + 1);
            assert(next.drop_last() =~= list@.take(i as int));
            assert(listed(issues@) =~= start + each_language_problems(next));
        }
        i += 1;
    }
    assert(list@.take(list@.len() as int) =~= list@);
    assert(listed(issues@) =~= listed(old(issues)@) + languages_problems(list@));
}

fn check_order(issues: &mut Vec<Issue>, order: &Vec<DegradeStep>)
    ensures
        listed(final(issues)@) == listed(old(issues)@) + order_problems(order@),
{
    let mut i: usize = 0;
    assert(listed(issues@) =~= listed(old(issues)@) + order_problems(order@.take(0)));
    while i < order.len()
        invariant
            i <= order@.len(),
            listed(issues@) == listed(old(issues)@) + order_problems(order@.take(i as int)),
        decreases order.len() - i,
    {
        let mut again = false;
        let mut j: usize = 0;
        while j < i
            invariant
                j <= i < order@.len(),
                again == order@.take(j as int).contains(order@[i as int]),
            decreases i - j,
        {
            if order[j] == order[i] {
                again = true;
            }
            proof {
                let now = order@.take(j as int);
                let next = order@.take(j + 1);
                assert(next[j as int] == order@[j as int]);
                if now.contains(order@[i as int]) {
                    let k = now.index_of(order@[i as int]);
                    assert(next[k] == order@[i as int]);
                }
                if next.contains(order@[i as int]) {
                    let k = next.index_of(order@[i as int]);
                    if k < j {
                        assert(now[k] == order@[i as int]);
                    }
                }
            }
            j += 1;
        }
        raise_when(issues, again, "degrade.order", "each step may appear only once");
        proof {
            let next = order@.take(i + 1);
            assert(next.drop_last() =~= order@.take(i as int));
            assert(listed(issues@) =~= listed(old(issues)@) + order_problems(next));
        }
        i += 1;
    }
    assert(order@.take(order@.len() as int) =~= order@);
}

impl Config {
    fn check_captions(&self, issues: &mut Vec<Issue>)
        ensures
            listed(final(issues)@) == listed(old(issues)@) + self.caption_problems(),
    {
        check_range(issues, "captions.offset_ms", self.captions.offset_ms as i64, -5_000, 5_000);
        check_range(issues, "captions.rows", self.captions.rows as i64, 1, 4);
        let width = self.captions.max_chars_per_line;
        check_range(issues, "captions.max_chars_per_line", width as i64, 20, 42);
        let wide = width > 32 && has_608(&self.languages);
        raise_when(
            issues,
            wide,
            "captions.max_chars_per_line",
            "CEA-608 allows at most 32 characters per line",
        );
        let clear = self.captions.clear_after_ms as i64;
        check_range(issues, "captions.clear_after_ms", clear, 1_000, 30_000);
        assert(listed(issues@) =~= listed(old(issues)@) + self.caption_problems());
    }

    fn check_speech(&self, issues: &mut Vec<Issue>)
        ensures
            listed(final(issues)@) == listed(old(issues)@) + self.speech_problems(),
    {
        let model = to_chars(self.asr.model.as_str());
        let unnamed = trim(model.as_slice()).len() == 0;
        raise_when(issues, unnamed, "asr.model", "a model name is required");
        check_range(issues, "asr.chunk_ms", self.asr.chunk_ms as i64, 160, 3_000);
        check_range(issues, "asr.stability_passes", self.asr.stability_passes as i64, 1, 3);
        let bits = self.vad.threshold.bits;
        let nan = (0x7F80_0000 < bits && bits < 0x8000_0000) || bits > 0xFF80_0000;
        let within = (0x3DCC_CCCD <= bits && bits <= 0x3F66_6666) || nan;
        let mut m = String::new();
        push_text(&mut m, "must be between ");
        push_text(&mut m, "0.1");
        push_text(&mut m, " and ");
        push_text(&mut m, "0.9");
        push_text(&mut m, " (is ");
        push_text(&mut m, self.vad.threshold.shown.as_str());
        push_text(&mut m, ")");
        assert(m@ =~= range_message("0.1"@, "0.9"@, self.vad.threshold.shown@));
        raise_when(issues, !within, "vad.threshold", m.as_str());
        assert(listed(issues@) =~= listed(old(issues)@) + self.speech_problems());
    }

    /// Checks ranges and cross-field rules. Empty means valid.
    pub fn validate(&self) -> (r: Vec<Issue>)
        ensures
            listed(r@) == self.problems(),
    {
        let mut issues: Vec<Issue> = Vec::new();
        let schemes = ["srt", "udp", "rtp"];
        assert(slices(schemes@) =~= input_schemes());
        check_url(&mut issues, "input.url", self.input.url.as_str(), &schemes);
        let none = self.outputs.len() == 0;
        raise_when(&mut issues, none, "outputs", "at least one output is required");
        check_outputs(&mut issues, &self.outputs);
        check_range(&mut issues, "video.delay_ms", self.video.delay_ms as i64, 0, 10_000);
        self.check_captions(&mut issues);
        check_languages(&mut issues, &self.languages);
        self.check_speech(&mut issues);
        let wait = self.translate.max_wait_ms as i64;
        check_range(&mut issues, "translate.max_wait_ms", wait, 200, 3_000);
        check_range(&mut issues, "srt.latency_ms", self.srt.latency_ms as i64, 20, 8_000);
        let closed = self.web.port == 0;
        raise_when(&mut issues, closed, "web.port", "port must be between 1 and 65535");
        let lag = self.degrade.max_lag_ms as i64;
        check_range(&mut issues, "degrade.max_lag_ms", lag, 1_000, 30_000);
        check_order(&mut issues, &self.degrade.order);
        assert(listed(issues@) =~= self.problems());
        issues
    }
}

proof fn lemma_srt_url(url: Seq<char>)
    requires
        url.len() > 6,
        url.take(6) =~= seq!['s', 'r', 't', ':', '/', '/'],
    ensures
        url_ok(url, input_schemes()),
        url_ok(url, output_schemes()),
{
    reveal_strlit("srt");
    reveal_strlit("://");
    let mark = "://"@;
    assert forall|k: int| 0 <= k < 6 implies #[trigger] url[k] == url.take(6)[k] by {}
    assert(stands_at(url, mark, 3)) by {
        assert(url.subrange(3, 6) =~= mark);
    }
    assert forall|j: int| 0 <= j < 3 implies !#[trigger] stands_at(url, mark, j) by {
        assert(url.subrange(j, j + 3)[0] == url[j]);
    }
    lemma_found_at(url, mark, 0, 3);
    assert(url.take(3) =~= "srt"@);
    assert(input_schemes()[0] == "srt"@);
    assert(output_schemes()[0] == "srt"@);
}

proof fn lemma_default_urls()
    ensures
        url_ok("srt://0.0.0.0:9000?mode=listener"@, input_schemes()),
        url_ok("srt://0.0.0.0:9001?mode=listener"@, output_schemes()),
{
    reveal_strlit("srt://0.0.0.0:9000?mode=listener");
    reveal_strlit("srt://0.0.0.0:9001?mode=listener");
    lemma_srt_url("srt://0.0.0.0:9000?mode=listener"@);
    lemma_srt_url("srt://0.0.0.0:9001?mode=listener"@);
}

proof fn lemma_default_model()
    ensures
        trimmed("nemotron-3.5-streaming"@).len() > 0,
{
    reveal_strlit("nemotron-3.5-streaming");
    let model = "nemotron-3.5-streaming"@;
    assert(trimmed_end(model) == model);
    assert(trimmed_start(model) == model);
}

proof fn lemma_default_codes()
    ensures
        code_ok("en"@),
        code_ok("es"@),
        code_ok("fr"@),
        code_ok("de"@),
        "en"@ != "es"@,
        "en"@ != "fr"@,
        "en"@ != "de"@,
        "es"@ != "fr"@,
        "es"@ != "de"@,
        "fr"@ != "de"@,
{
    reveal_strlit("en");
    reveal_strlit("es");
    reveal_strlit("fr");
    reveal_strlit("de");
    assert("en"@[1] != "es"@[1]);
    assert("en"@[0] != "fr"@[0]);
    assert("en"@[0] != "de"@[0]);
    assert("es"@[0] != "fr"@[0]);
    assert("es"@[0] != "de"@[0]);
    assert("fr"@[0] != "de"@[0]);
}

} // verus!
