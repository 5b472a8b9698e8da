//! Between the media side and the workers: the workers' command lines, and the
//! audio frames sent to speech recognition.
use vstd::prelude::*;

use crate::audio::AudioChunk;
use crate::chars::{
    char_lists, from_chars, join_with, spaced_words, split_whitespace, texts, to_chars,
};
use crate::config::{Config, Language};
use crate::decimal::push_text;
use crate::supervisor::{variables, WorkerSpec};

verus! {

/// Audio frame length sent to speech recognition.
pub const PCM_FRAME_MS: u64 = 100;

/// 16 kHz audio.
pub const SAMPLES_PER_MS: u64 = 16;

/// Samples in a frame.
pub const FRAME_LEN: usize = 1600;

/// A chunk this far from where it is expected is a jump.
pub const JUMP_MS: u64 = 20;

/// What a worker is started with.
#[verifier::ext_equal]
pub struct CommandLine {
    pub name: Seq<char>,
    pub program: Seq<char>,
    pub args: Seq<Seq<char>>,
    /// Extra environment variables and their values.
    pub env: Seq<(Seq<char>, Seq<char>)>,
}

/// What a worker is started with.
pub open spec fn command_line(s: WorkerSpec) -> CommandLine {
    CommandLine {
        name: s.name@,
        program: s.program@,
        args: texts(s.args@),
        env: variables(s.env@),
    }
}

/// Splits a worker command line (`path arg arg ...`) on white space.
pub fn worker_command(name: &str, cmd: &str) -> (r: Result<WorkerSpec, String>)
    ensures
        ({
            let parts = spaced_words(cmd@);
            match r {
                Ok(s) => parts.len() > 0 && command_line(s) == (CommandLine {
                    name: name@,
                    program: parts[0],
                    args: parts.drop_first(),
                    env: seq![],
                }),
                Err(e) => parts.len() == 0 && e@ == "empty --"@ + name@ + "-worker command"@,
            }
        }),
{
    let chars = to_chars(cmd);
    let parts = split_whitespace(chars.as_slice());
    let ghost all = spaced_words(cmd@);
    if parts.len() == 0 {
        let mut e = String::new();
        push_text(&mut e, "empty --");
        push_text(&mut e, name);
        push_text(&mut e, "-worker command");
        assert(e@ =~= "empty --"@ + name@ + "-worker command"@);
        return Err(e);
    }
    let program = from_chars(parts[0].as_slice());
    let mut s = WorkerSpec::new(name, program.as_str());
    let mut i: usize = 1;
    assert(texts(s.args@) =~= all.subrange(1, 1));
    while i < parts.len()
        invariant
            1 <= i <= parts@.len(),
            char_lists(parts@) == all,
            s.name@ == name@,
            s.program@ == all[0],
            s.env@.len() == 0,
            texts(s.args@) == all.subrange(1, i as int),
        decreases parts.len() - i,
    {
        let arg = from_chars(parts[i].as_slice());
        assert(arg@ == all[i as int]);
        s = s.arg(arg.as_str());
        assert(texts(s.args@) =~= all.subrange(1, i + 1));
        i += 1;
    }
    assert(all.subrange(1, all.len() as int) =~= all.drop_first());
    assert(variables(s.env@) =~= seq![]);
    Ok(s)
}

/// The code of the source language, English if there is none.
pub open spec fn source_of(langs: Seq<Language>) -> Seq<char>
    decreases langs.len(),
{
    if langs.len() == 0 {
        "en"@
    } else if langs[0].source {
        langs[0].code@
    } else {
        source_of(langs.drop_first())
    }
}

/// The codes of the languages to translate into.
pub open spec fn targets_of(langs: Seq<Language>) -> Seq<Seq<char>>
    decreases langs.len(),
{
    if langs.len() == 0 {
        seq![]
    } else if langs.last().source {
        targets_of(langs.drop_last())
    } else {
        targets_of(langs.drop_last()).push(langs.last().code@)
    }
}

/// The code of the source language.
pub fn source_lang(config: &Config) -> (r: String)
    ensures
        r@ == source_of(config.languages@),
{
    let langs = &config.languages;
    let mut i: usize = 0;
    assert(langs@.skip(0) =~= langs@);
    while i < langs.len()
        invariant
            i <= langs@.len(),
            source_of(config.languages@) == source_of(langs@.skip(i as int)),
        decreases langs.len() - i,
    {
        assert(langs@.skip(i as int)[0] == langs@[i as int]);
        assert(langs@.skip(i as int).drop_first() =~= langs@.skip(i + 1));
        if langs[i].source {
            return langs[i].code.clone();
        }
        i += 1;
    }
    "en".to_owned()
}

/// The codes of the languages to translate into.
pub fn target_langs(config: &Config) -> (r: Vec<String>)
    ensures
        texts(r@) == targets_of(config.languages@),
{
    let langs = &config.languages;
    let mut out: Vec<String> = Vec::new();
    let mut i: usize = 0;
    assert(texts(out@) =~= seq![]);
    while i < langs.len()
        invariant
            i <= langs@.len(),
            texts(out@) == targets_of(langs@.take(i as int)),
        decreases langs.len() - i,
    {
        assert(langs@.take(i + 1).drop_last() =~= langs@.take(i as int));
        if !langs[i].source {
            let ghost before = texts(out@);
            out.push(langs[i].code.clone());
            assert(texts(out@) =~= before.push(langs@[i as int].code@));
        }
        i += 1;
    }
    assert(langs@.take(langs@.len() as int) =~= langs@);
    out
}

/// A relative path inside a directory.
pub open spec fn inside(dir: Seq<char>, name: Seq<char>) -> Seq<char> {
    if dir.len() == 0 {
        name
    } else if dir.last() == '/' {
        dir + name
    } else {
        dir + "/"@ + name
    }
}

fn path_inside(dir: &str, name: &str) -> (r: String)
    ensures
        r@ == inside(dir@, name@),
{
    let chars = to_chars(dir);
    let mut p = String::new();
    push_text(&mut p, dir);
    if chars.len() > 0 && chars[chars.len() - 1] != '/' {
        push_text(&mut p, "/");
    }
    push_text(&mut p, name);
    assert(p@ =~= inside(dir@, name@));
    p
}

/// The default speech recogniser next to the main executable.
pub open spec fn asr_command(config: Config, bin_dir: Seq<char>, models: Seq<char>) -> CommandLine {
    CommandLine {
        name: "asr"@,
        program: inside(bin_dir, "multi-asr"@),
        args: seq![
            "--model-dir"@,
            inside(
                models,
                "sherpa/sherpa-onnx-nemotron-3.5-asr-streaming-0.6b-560ms-2026-06-11-fp32"@,
            ),
            "--device"@,
            "auto"@,
            "--lang"@,
            source_of(config.languages@),
            "--vad-threshold"@,
            config.vad.threshold.shown@,
        ],
        env: seq![],
    }
}

/// The default translator next to the main executable.
pub open spec fn mt_command(config: Config, bin_dir: Seq<char>, models: Seq<char>) -> CommandLine {
    CommandLine {
        name: "mt"@,
        program: inside(bin_dir, "multi-mt"@),
        args: seq![
            "--models"@,
            inside(models, "ct2"@),
            "--device"@,
            "auto"@,
            "--langs"@,
            join_with(targets_of(config.languages@), ','),
        ],
        env: seq![],
    }
}

/// The default speech recogniser.
pub fn default_asr(config: &Config, bin_dir: &str, models: &str) -> (r: WorkerSpec)
    ensures
        command_line(r) == asr_command(*config, bin_dir@, models@),
{
    let program = path_inside(bin_dir, "multi-asr");
    let model = path_inside(
        models,
        "sherpa/sherpa-onnx-nemotron-3.5-asr-streaming-0.6b-560ms-2026-06-11-fp32",
    );
    let lang = source_lang(config);
    let r = WorkerSpec::new("asr", program.as_str());
    let r = r.arg("--model-dir").arg(model.as_str());
    let r = r.arg("--device").arg("auto").arg("--lang").arg(lang.as_str());
    let r = r.arg("--vad-threshold").arg(config.vad.threshold.shown.as_str());
    assert(texts(r.args@) =~= asr_command(*config, bin_dir@, models@).args);
    assert(variables(r.env@) =~= seq![]);
    r
}

fn comma_joined(list: &Vec<String>) -> (r: String)
    ensures
        r@ == join_with(texts(list@), ','),
{
    let mut s = String::new();
    let ghost all = texts(list@);
    let mut i: usize = 0;
    while i < list.len()
        invariant
            i <= list@.len(),
            all == texts(list@),
            s@ == join_with(all.take(i as int), ','),
        decreases list.len() - i,
    {
        proof {
            assert(all.take(i + 1).drop_last() =~= all.take(i as int));
            assert(all.take(i + 1).last() == list@[i as int]@);
        }
        let ghost before = s@;
        if i > 0 {
            s.push(',');
        }
        push_text(&mut s, list[i].as_str());
        assert(s@ =~= join_with(all.take(i + 1), ','));
        i += 1;
    }
    assert(all.take(all.len() as int) =~= all);
    s
}

/// The default translator.
pub fn default_mt(config: &Config, bin_dir: &str, models: &str) -> (r: WorkerSpec)
    ensures
        command_line(r) == mt_command(*config, bin_dir@, models@),
{
    let program = path_inside(bin_dir, "multi-mt");
    let model = path_inside(models, "ct2");
    let targets = target_langs(config);
    let list = comma_joined(&targets);
    let r = WorkerSpec::new("mt", program.as_str());
    let r = r.arg("--models").arg(model.as_str());
    let r = r.arg("--device").arg("auto").arg("--langs").arg(list.as_str());
    assert(texts(r.args@) =~= mt_command(*config, bin_dir@, models@).args);
    assert(variables(r.env@) =~= seq![]);
    r
}

/// The workers of a run; without a target language there is no translator.
pub struct Workers {
    pub asr: WorkerSpec,
    pub mt: Option<WorkerSpec>,
}

/// Whether a command, if there is one, names a program.
pub open spec fn names_program(cmd: Option<&str>) -> bool {
    cmd matches Some(c) ==> spaced_words(c@).len() > 0
}

/// The command line of a worker: the one given, or the default.
pub open spec fn chosen(
    name: Seq<char>,
    cmd: Option<&str>,
    fallback: CommandLine,
) -> CommandLine {
    match cmd {
        Some(c) => CommandLine {
            name,
            program: spaced_words(c@)[0],
            args: spaced_words(c@).drop_first(),
            env: seq![],
        },
        None => fallback,
    }
}

/// Default workers, with command-line overrides.
pub fn workers(
    config: &Config,
    asr_cmd: Option<&str>,
    mt_cmd: Option<&str>,
    bin_dir: &str,
    models: &str,
) -> (r: Result<Workers, String>)
    ensures
        ({
            let translate = targets_of(config.languages@).len() > 0;
            match r {
                Ok(w) => {
                    &&& names_program(asr_cmd)
                    &&& command_line(w.asr) == chosen(
                        "asr"@,
                        asr_cmd,
                        asr_command(*config, bin_dir@, models@),
                    )
                    &&& w.mt is Some == translate
                    &&& w.mt matches Some(mt) ==> names_program(mt_cmd) && command_line(mt)
                        == chosen("mt"@, mt_cmd, mt_command(*config, bin_dir@, models@))
                },
                Err(e) => if !names_program(asr_cmd) {
                    e@ == "empty --"@ + "asr"@ + "-worker command"@
                } else {
                    translate && !names_program(mt_cmd) && e@ == "empty --"@ + "mt"@
                        + "-worker command"@
                },
            }
        }),
{
    let asr = match asr_cmd {
        Some(c) => match worker_command("asr", c) {
            Ok(s) => s,
            Err(e) => return Err(e),
        },
        None => default_asr(config, bin_dir, models),
    };
    let targets = target_langs(config);
    assert(targets@.len() == texts(targets@).len());
    let mt = if targets.len() == 0 {
        None
    } else {
        match mt_cmd {
            Some(c) => match worker_command("mt", c) {
                Ok(s) => Some(s),
                Err(e) => return Err(e),
            },
            None => Some(default_mt(config, bin_dir, models)),
        }
    };
    Ok(Workers { asr, mt })
}

/// Groups tap audio into fixed-length frames on the audio timeline.
pub struct Framer {
    start_ms: u64,
    buf: Vec<i16>,
}

/// Audio that does not fill a frame yet, and when it starts.
#[verifier::ext_equal]
pub struct Partial {
    pub start_ms: int,
    pub buf: Seq<i16>,
}

/// Frames: when each starts, and its samples.
pub open spec fn frame_list(frames: Seq<(u64, Vec<i16>)>) -> Seq<(int, Seq<i16>)> {
    frames.map_values(|f: (u64, Vec<i16>)| (f.0 as int, f.1@))
}

impl Partial {
    /// A chunk does not go on where the audio ends.
    pub open spec fn jumps(self, start_ms: int) -> bool {
        let expected = self.start_ms + self.buf.len() as int / SAMPLES_PER_MS as int;
        self.buf.len() > 0 && !(-(JUMP_MS as int) <= start_ms - expected <= JUMP_MS)
    }

    /// The full frames in the audio, and what is left.
    pub open spec fn cut(self) -> (Seq<(int, Seq<i16>)>, Partial)
        decreases self.buf.len(),
    {
        if self.buf.len() < FRAME_LEN {
            (seq![], self)
        } else {
            let first = (self.start_ms, self.buf.take(FRAME_LEN as int));
            let (more, rest) = Partial {
                start_ms: self.start_ms + PCM_FRAME_MS,
                buf: self.buf.skip(FRAME_LEN as int),
            }.cut();
            (seq![first] + more, rest)
        }
    }

    /// The frames that a chunk completes, and what is left. A jump in the
    /// timeline flushes.
    pub open spec fn push(self, start_ms: int, samples: Seq<i16>) -> (
        Seq<(int, Seq<i16>)>,
        Partial,
    ) {
        let flushed = if self.jumps(start_ms) {
            seq![(self.start_ms, self.buf)]
        } else {
            seq![]
        };
        let fresh = self.jumps(start_ms) || self.buf.len() == 0;
        let (full, rest) = Partial {
            start_ms: if fresh {
                start_ms
            } else {
                self.start_ms
            },
            buf: if fresh {
                samples
            } else {
                self.buf + samples
            },
        }.cut();
        (flushed + full, rest)
    }

    /// Less than a frame waits.
    pub open spec fn wf(self) -> bool {
        self.buf.len() < FRAME_LEN && 0 <= self.start_ms
    }
}

impl View for Framer {
    type V = Partial;

    closed spec fn view(&self) -> Partial {
        Partial { start_ms: self.start_ms as int, buf: self.buf@ }
    }
}

impl Default for Framer {
    fn default() -> (r: Self)
        ensures
            r@ == (Partial { start_ms: 0, buf: seq![] }),
            r@.wf(),
    {
        let r = Framer { start_ms: 0, buf: Vec::new() };
        assert(r.buf@ =~= seq![]);
        r
    }
}

impl Framer {
    /// Adds a chunk; returns the frames it completed.
    pub fn push(&mut self, chunk: AudioChunk) -> (out: Vec<(u64, Vec<i16>)>)
        requires
            old(self)@.wf(),
            old(self)@.start_ms + (FRAME_LEN + chunk.samples@.len()) as int
                / SAMPLES_PER_MS as int <= u64::MAX,
            chunk.start_ms + (FRAME_LEN + chunk.samples@.len()) as int / SAMPLES_PER_MS as int
                <= u64::MAX,
        ensures
            (frame_list(out@), final(self)@) == old(self)@.push(
                chunk.start_ms as int,
                chunk.samples@,
            ),
            final(self)@.wf(),
    {
        let ghost before = self@;
        let mut out: Vec<(u64, Vec<i16>)> = Vec::new();
        assert(frame_list(out@) =~= seq![]);
        let expected: u64 = self.start_ms + self.buf.len() as u64 / SAMPLES_PER_MS;
        let away: u64 = if chunk.start_ms > expected {
            chunk.start_ms - expected
        } else {
            expected - chunk.start_ms
        };
        if self.buf.len() > 0 && away > JUMP_MS {
            let mut full: Vec<i16> = Vec::new();
            std::mem::swap(&mut full, &mut self.buf);
            out.push((self.start_ms, full));
            assert(frame_list(out@) =~= seq![(before.start_ms, before.buf)]);
            assert(self.buf@.len() == 0);
        }
        if self.buf.len() == 0 {
            self.start_ms = chunk.start_ms;
        }
        let ghost flushed = frame_list(out@);
        let ghost held = self.buf@;
        self.buf.extend_from_slice(chunk.samples.as_slice());
        proof {
            assert(held.len() == 0 ==> held + chunk.samples@ =~= chunk.samples@);
            assert(self.buf@ =~= held + chunk.samples@);
        }
        let ghost (full, rest) = self@.cut();
        assert(flushed + full =~= frame_list(out@) + self@.cut().0);
        while self.buf.len() >= FRAME_LEN
            invariant
                frame_list(out@) + self@.cut().0 == flushed + full,
                self@.cut().1 == rest,
                self.start_ms + self.buf@.len() as int / SAMPLES_PER_MS as int <= u64::MAX,
            decreases self.buf.len(),
        {
            let ghost now = self@;
            let ghost sent = frame_list(out@);
            let mut tail = self.buf.split_off(FRAME_LEN);
            std::mem::swap(&mut tail, &mut self.buf);
            let ghost one = (now.start_ms, now.buf.take(FRAME_LEN as int));
            proof {
                assert(tail@ =~= now.buf.take(FRAME_LEN as int));
                assert(self.buf@ =~= now.buf.skip(FRAME_LEN as int));
            }
            out.push((self.start_ms, tail));
            self.start_ms = self.start_ms + PCM_FRAME_MS;
            proof {
                assert(frame_list(out@) =~= sent.push(one));
                assert(now.cut().0 =~= seq![one] + self@.cut().0);
                assert(frame_list(out@) + self@.cut().0 =~= sent + now.cut().0);
            }
        }
        assert(frame_list(out@) + self@.cut().0 =~= frame_list(out@));
        out
    }
}

/// The samples of frames one behind the other.
pub open spec fn frame_samples(frames: Seq<(int, Seq<i16>)>) -> Seq<i16>
    decreases frames.len(),
{
    if frames.len() == 0 {
        seq![]
    } else {
        frames[0].1 + frame_samples(frames.drop_first())
    }
}

/// Cutting loses no sample and makes frames of one length, each starting where
/// the last one ends.
pub proof fn law_cutting_keeps_the_audio(p: Partial)
    ensures
        frame_samples(p.cut().0) + p.cut().1.buf == p.buf,
        p.cut().1.buf.len() < 1600,
        p.cut().1.start_ms == p.start_ms + 100 * p.cut().0.len(),
        forall|i: int|
            0 <= i < p.cut().0.len() ==> (#[trigger] p.cut().0[i]).1.len() == 1600
                && p.cut().0[i].0 == p.start_ms + 100 * i,
    decreases p.buf.len(),
{
    if p.buf.len() < FRAME_LEN {
        assert(frame_samples(p.cut().0) + p.cut().1.buf =~= p.buf);
    } else {
        let first = (p.start_ms, p.buf.take(FRAME_LEN as int));
        let next = Partial {
            start_ms: p.start_ms + PCM_FRAME_MS,
            buf: p.buf.skip(FRAME_LEN as int),
        };
        law_cutting_keeps_the_audio(next);
        let all = p.cut().0;
        assert(all.drop_first() =~= next.cut().0);
        assert(all[0] == first);
        let tail = frame_samples(next.cut().0);
        assert(frame_samples(all) == first.1 + tail);
        assert((first.1 + tail) + next.cut().1.buf =~= first.1 + (tail + next.cut().1.buf));
        assert(p.buf =~= p.buf.take(FRAME_LEN as int) + p.buf.skip(FRAME_LEN as int));
        assert forall|i: int| 0 <= i < all.len() implies (#[trigger] all[i]).1.len() == FRAME_LEN
            && all[i].0 == p.start_ms + PCM_FRAME_MS * i by {
            if i > 0 {
                assert(all[i] == next.cut().0[i - 1]);
            }
        }
    }
}

/// No audio is lost on its way to speech recognition: the frames that a chunk
/// brings and what is left hold what was there and the chunk.
pub proof fn law_framing_keeps_the_audio(p: Partial, start_ms: int, samples: Seq<i16>)
    ensures
        frame_samples(p.push(start_ms, samples).0) + p.push(start_ms, samples).1.buf == p.buf
            + samples,
{
    let fresh = p.jumps(start_ms) || p.buf.len() == 0;
    let q = Partial {
        start_ms: if fresh {
            start_ms
        } else {
            p.start_ms
        },
        buf: if fresh {
            samples
        } else {
            p.buf + samples
        },
    };
    law_cutting_keeps_the_audio(q);
    let all = p.push(start_ms, samples).0;
    if p.jumps(start_ms) {
        assert(all.drop_first() =~= q.cut().0);
        assert(all[0].1 == p.buf);
        let tail = frame_samples(q.cut().0);
        assert((p.buf + tail) + q.cut().1.buf =~= p.buf + (tail + q.cut().1.buf));
    } else {
        assert(all =~= q.cut().0);
        if p.buf.len() == 0 {
            assert(p.buf + samples =~= samples);
        }
    }
}

} // verus!
