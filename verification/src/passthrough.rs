//! Decisions of the pass-through pipe: when an output may start or go on, when
//! the input is opened again, and how a packet is captioned.
use vstd::prelude::*;

use crate::annexb::{sei, VideoCodec};
use crate::backoff::{double_wait, next_wait};
use crate::cc::{fixture_pair, fixture_text, fixture_triples, h264_sei_nal, hevc_sei_nal};
use crate::cc::{CcTriple, CcType};
use crate::chars::{char_lists, from_chars, spaced_words, split_whitespace, texts, to_chars};
use crate::nal::{annex_b, code_start, first_vcl, insert_sei, Skip};
use crate::numbers::{parse_unsigned, unsigned_value};

verus! {

/// What an input stream carries.
#[derive(Clone, Copy, Debug, PartialEq, Eq, Structural)]
pub enum StreamKind {
    Video,
    Audio,
    Other,
}

/// How many of the first `n` streams are passed on: video and audio only.
pub open spec fn passed(kinds: Seq<StreamKind>, n: nat) -> nat
    decreases n,
{
    if n == 0 {
        0
    } else {
        passed(kinds, (n - 1) as nat) + (if kinds[n - 1] == StreamKind::Other {
            0nat
        } else {
            1
        })
    }
}

/// The first video stream from `i` on.
pub open spec fn first_video(kinds: Seq<StreamKind>, i: int) -> Option<int>
    decreases kinds.len() - i,
{
    if i >= kinds.len() {
        None
    } else if kinds[i] == StreamKind::Video {
        Some(i)
    } else {
        first_video(kinds, i + 1)
    }
}

/// Maps input streams to output streams (video and audio only, in order), and
/// finds the first video stream.
pub fn map_streams(kinds: &[StreamKind]) -> (r: (Vec<Option<usize>>, Option<usize>))
    ensures
        r.0@.len() == kinds@.len(),
        forall|i: int|
            0 <= i < kinds@.len() ==> #[trigger] r.0@[i] == (if kinds@[i] == StreamKind::Other {
                None
            } else {
                Some(passed(kinds@, i as nat) as usize)
            }),
        r.1 is Some == first_video(kinds@, 0) is Some,
        r.1 matches Some(v) ==> v == first_video(kinds@, 0)->0,
{
    let mut map: Vec<Option<usize>> = Vec::new();
    let mut next: usize = 0;
    let mut video: Option<usize> = None;
    for i in 0..kinds.len()
        invariant
            map@.len() == i,
            next == passed(kinds@, i as nat),
            next <= i,
            forall|k: int|
                0 <= k < i ==> #[trigger] map@[k] == (if kinds@[k] == StreamKind::Other {
                    None
                } else {
                    Some(passed(kinds@, k as nat) as usize)
                }),
            video is None ==> first_video(kinds@, 0) == first_video(kinds@, i as int),
            video matches Some(v) ==> first_video(kinds@, 0) == Some(v as int),
    {
        match kinds[i] {
            StreamKind::Other => map.push(None),
            StreamKind::Audio => {
                map.push(Some(next));
                next = next + 1;
            },
            StreamKind::Video => {
                map.push(Some(next));
                next = next + 1;
                if video.is_none() {
                    video = Some(i);
                }
            },
        }
    }
    (map, video)
}

/// When a packet is due: its decoding time, else its presentation time.
pub open spec fn due(dts: Option<i64>, pts: Option<i64>) -> Option<i64> {
    if dts is Some {
        dts
    } else {
        pts
    }
}

/// When a packet is due; `None` without timestamps.
pub fn due_time(dts: Option<i64>, pts: Option<i64>) -> (r: Option<i64>)
    ensures
        r == due(dts, pts),
{
    if dts.is_some() {
        dts
    } else {
        pts
    }
}

/// What happens to a packet read from the input.
#[derive(Clone, Copy, Debug, PartialEq, Eq, Structural)]
pub enum InputStep {
    /// Its stream was not there when the input was opened: open it again.
    Reopen,
    /// Its stream is not passed on.
    Skip,
    /// It has no timestamps and is dropped.
    Untimed,
    /// It goes to output stream `stream`.
    Pass { stream: usize, dts: i64, pts: i64 },
}

/// The step for a packet of stream `stream`, as [`map_streams`] mapped it.
pub open spec fn input_step(
    map: Seq<Option<usize>>,
    stream: usize,
    dts: Option<i64>,
    pts: Option<i64>,
) -> InputStep {
    if stream >= map.len() {
        InputStep::Reopen
    } else if map[stream as int] is None {
        InputStep::Skip
    } else if due(dts, pts) is None {
        InputStep::Untimed
    } else {
        InputStep::Pass {
            stream: map[stream as int]->0,
            dts: due(dts, pts)->0,
            pts: if pts is Some {
                pts->0
            } else {
                due(dts, pts)->0
            },
        }
    }
}

/// Decides on a packet read from the input. A timestamp that is missing is taken
/// from the other one.
pub fn take_packet(
    map: &[Option<usize>],
    stream: usize,
    dts: Option<i64>,
    pts: Option<i64>,
) -> (r: InputStep)
    ensures
        r == input_step(map@, stream, dts, pts),
{
    if stream >= map.len() {
        return InputStep::Reopen;
    }
    match (map[stream], due_time(dts, pts)) {
        (None, _) => InputStep::Skip,
        (Some(_), None) => InputStep::Untimed,
        (Some(to), Some(at)) => InputStep::Pass {
            stream: to,
            dts: at,
            pts: match pts {
                Some(shown) => shown,
                None => at,
            },
        },
    }
}

/// Where an output stands: its header is written once the streams are fixed, and
/// it is in sync from a keyframe on.
#[derive(Clone, Copy, Debug, PartialEq, Eq, Structural)]
pub struct OutputSync {
    pub header: bool,
    pub synced: bool,
    /// The input session whose streams the header describes.
    pub layout_id: u64,
}

/// A packet as an output sees it.
#[derive(Clone, Copy, Debug, PartialEq, Eq, Structural)]
pub struct Arrival {
    /// Packets were dropped for this output since the last one.
    pub lost: bool,
    pub layout_id: u64,
    /// The streams are those that the header describes.
    pub same_streams: bool,
    pub video: bool,
    pub key: bool,
    /// Time since the packet was read.
    pub age_ns: u64,
}

/// What an output does with a packet.
#[derive(Clone, Copy, Debug, PartialEq, Eq, Structural)]
pub enum OutputStep {
    /// Close and open again, with the new streams.
    Reopen,
    /// Pass over the packet.
    Skip,
    /// Write the header, then the packet.
    Start,
    /// Write the packet.
    Write,
}

/// A keyframe older than this does not start an output.
pub const STALE_NS: u64 = 300_000_000;

/// The packet can put an output in sync: a video keyframe, just read.
pub open spec fn syncs(p: Arrival) -> bool {
    p.video && p.key && p.age_ns < STALE_NS
}

/// Whether the output is still in sync when the packet comes.
pub open spec fn still_synced(s: OutputSync, p: Arrival) -> bool {
    s.synced && !p.lost
}

/// The step for a packet.
pub open spec fn output_step(s: OutputSync, p: Arrival) -> OutputStep {
    if s.header && s.layout_id != p.layout_id && !p.same_streams {
        OutputStep::Reopen
    } else if still_synced(s, p) {
        OutputStep::Write
    } else if !syncs(p) {
        OutputStep::Skip
    } else if s.header {
        OutputStep::Write
    } else {
        OutputStep::Start
    }
}

/// Where the output stands after the packet. A new one has neither header nor
/// sync; losing packets ends the sync, a fresh keyframe restores it.
pub open spec fn output_after(s: OutputSync, p: Arrival) -> OutputSync {
    match output_step(s, p) {
        OutputStep::Reopen => OutputSync { header: false, synced: false, layout_id: 0 },
        OutputStep::Skip => OutputSync {
            header: s.header,
            synced: false,
            layout_id: if s.header {
                p.layout_id
            } else {
                s.layout_id
            },
        },
        OutputStep::Start | OutputStep::Write => OutputSync {
            header: true,
            synced: true,
            layout_id: if s.header || output_step(s, p) == OutputStep::Start {
                p.layout_id
            } else {
                s.layout_id
            },
        },
    }
}

impl OutputSync {
    /// An output is in sync only with its header written.
    pub open spec fn wf(self) -> bool {
        self.synced ==> self.header
    }

    /// A freshly connected output.
    pub fn new() -> (r: Self)
        ensures
            r == (OutputSync { header: false, synced: false, layout_id: 0 }),
            r.wf(),
    {
        OutputSync { header: false, synced: false, layout_id: 0 }
    }

    /// Decides what to do with a packet.
    pub fn on_packet(&mut self, p: Arrival) -> (r: OutputStep)
        requires
            old(self).wf(),
        ensures
            final(self).wf(),
            r == output_step(*old(self), p),
            *final(self) == output_after(*old(self), p),
    {
        if p.lost {
            self.synced = false;
        }
        if self.header && self.layout_id != p.layout_id {
            if p.same_streams {
                self.layout_id = p.layout_id;
            } else {
                *self = OutputSync::new();
                return OutputStep::Reopen;
            }
        }
        if !self.synced {
            if !(p.video && p.key && p.age_ns < STALE_NS) {
                return OutputStep::Skip;
            }
            self.synced = true;
            if !self.header {
                self.header = true;
                self.layout_id = p.layout_id;
                return OutputStep::Start;
            }
        }
        OutputStep::Write
    }
}

/// After packets were lost, or on a new connection, nothing is written until a
/// fresh video keyframe comes.
pub proof fn law_output_resumes_at_a_keyframe(s: OutputSync, p: Arrival)
    requires
        s.wf(),
        !s.synced || p.lost,
        output_step(s, p) == OutputStep::Write || output_step(s, p) == OutputStep::Start,
    ensures
        p.video && p.key && p.age_ns < 300_000_000,
{
}

/// Whether a packet's timestamp comes after the last one written of its stream.
/// Packets without one, and first packets, do.
pub fn is_later(dts: Option<i64>, last: Option<i64>) -> (r: bool)
    ensures
        r == !(dts is Some && last is Some && dts->0 <= last->0),
{
    match (dts, last) {
        (Some(d), Some(l)) => d > l,
        _ => true,
    }
}

/// Counts packets whose headers are those of the other codec. A second one in a
/// row (undecided ones aside) means that the input changed codec.
pub fn watch_codec(mismatches: u32, verdict: Option<bool>) -> (r: (u32, bool))
    requires
        mismatches < 2,
    ensures
        ({
            let seen = match verdict {
                Some(true) => mismatches + 1,
                Some(false) => 0,
                None => mismatches as int,
            };
            &&& r.1 == (seen >= 2)
            &&& r.0 == (if r.1 {
                0
            } else {
                seen
            })
        }),
        r.0 < 2,
{
    let seen: u32 = match verdict {
        Some(other) => if other {
            mismatches + 1
        } else {
            0
        },
        None => mismatches,
    };
    if seen >= 2 {
        (0, true)
    } else {
        (seen, false)
    }
}

/// The first wait before the input is opened again, in milliseconds.
pub const FIRST_RETRY_MS: u64 = 250;

/// The longest wait before the input is opened again, in milliseconds.
pub const LAST_RETRY_MS: u64 = 2000;

/// The wait after one of `ms`: twice as long, up to the longest.
pub fn next_retry_ms(ms: u64) -> (r: u64)
    ensures
        r == next_wait(ms, LAST_RETRY_MS),
{
    double_wait(ms, LAST_RETRY_MS)
}

/// The fixture caption of a frame: its field-1 pair, and field-2 filler.
pub open spec fn is_fixture(triples: Seq<CcTriple>, frame: u64) -> bool {
    &&& triples.len() == 2
    &&& triples[0].valid
    &&& triples[0].cc_type == CcType::Field1
    &&& triples[0].data@ == fixture_pair(
        fixture_text((frame / 60) as int % 3),
        (frame % 60) as int,
    )
    &&& triples[1].parts() == (true, CcType::Field2, 0x80u8, 0x80u8)
}

/// Splices the fixture caption of a frame into an access unit, or says why that
/// is not possible and the unit is to pass unchanged.
pub fn caption(au: &[u8], codec: VideoCodec, frame: u64) -> (r: Result<Vec<u8>, Skip>)
    ensures
        r == Err::<Vec<u8>, Skip>(Skip::NotAnnexB) <==> !annex_b(au@),
        r == Err::<Vec<u8>, Skip>(Skip::NoVcl) <==> annex_b(au@) && first_vcl(au@, codec, 0) is None,
        r matches Ok(out) ==> exists|triples: Seq<CcTriple>|
            {
                let at = code_start(au@, first_vcl(au@, codec, 0)->0);
                &&& #[trigger] is_fixture(triples, frame)
                &&& out@ == au@.take(at) + seq![0u8, 0, 0, 1] + sei(codec, triples) + au@.skip(at)
            },
{
    let triples = fixture_triples(frame);
    assert(is_fixture(triples@, frame));
    let nal = match codec {
        VideoCodec::H264 => h264_sei_nal(triples.as_slice()),
        VideoCodec::Hevc => hevc_sei_nal(triples.as_slice()),
    };
    insert_sei(au, nal.as_slice(), codec)
}

/// The place of the first `=`.
pub open spec fn first_equals(s: Seq<char>, i: int) -> Option<int>
    decreases s.len() - i,
{
    if i >= s.len() {
        None
    } else if s[i] == '=' {
        Some(i)
    } else {
        first_equals(s, i + 1)
    }
}

/// The options `key=value` of a list, entries without `=` left out.
pub open spec fn options(list: Seq<Seq<char>>) -> Seq<(Seq<char>, Seq<char>)>
    decreases list.len(),
{
    if list.len() == 0 {
        seq![]
    } else {
        let head = options(list.drop_last());
        match first_equals(list.last(), 0) {
            Some(i) => head.push((list.last().take(i), list.last().skip(i + 1))),
            None => head,
        }
    }
}

/// Keys and values.
pub open spec fn option_texts(list: Seq<(String, String)>) -> Seq<(Seq<char>, Seq<char>)> {
    list.map_values(|o: (String, String)| (o.0@, o.1@))
}

/// Splits options `key=value`; entries without `=` are left out.
pub fn parse_opts(list: &[String]) -> (r: Vec<(String, String)>)
    ensures
        option_texts(r@) == options(texts(list@)),
{
    let ghost all = texts(list@);
    let mut out: Vec<(String, String)> = Vec::new();
    assert(option_texts(out@) =~= options(all.take(0)));
    for k in 0..list.len()
        invariant
            all == texts(list@),
            option_texts(out@) == options(all.take(k as int)),
    {
        assert(all.take(k + 1).drop_last() =~= all.take(k as int));
        assert(all.take(k + 1).last() == list@[k as int]@);
        let s = to_chars(list[k].as_str());
        let mut i: usize = 0;
        while i < s.len() && s[i] != '='
            invariant
                i <= s@.len(),
                first_equals(s@, 0) == first_equals(s@, i as int),
            decreases s@.len() - i,
        {
            i = i + 1;
        }
        let ghost before = option_texts(out@);
        if i < s.len() {
            let mut value = s;
            let ghost whole = value@;
            let mut tail = value.split_off(i);
            assert(value@ =~= whole.take(i as int));
            let _ = tail.remove(0);
            assert(tail@ =~= whole.skip(i + 1));
            let pair = (from_chars(value.as_slice()), from_chars(tail.as_slice()));
            out.push(pair);
            assert(option_texts(out@) =~= before.push((whole.take(i as int), whole.skip(i + 1))));
        }
    }
    assert(all.take(all.len() as int) =~= all);
    out
}

/// The input options used when none are given: two seconds without data mean
/// that the input is lost, the probe covers a group of pictures, and no parser
/// delays frames.
pub open spec fn default_options() -> Seq<Seq<char>> {
    seq![
        "rw_timeout=2000000"@,
        "probesize=500000"@,
        "analyzeduration=1500000"@,
        "fflags=+noparse"@,
    ]
}

/// The input options used when none are given.
pub fn default_in_opts() -> (r: Vec<String>)
    ensures
        texts(r@) == default_options(),
{
    let mut r: Vec<String> = Vec::new();
    r.push("rw_timeout=2000000".to_owned());
    r.push("probesize=500000".to_owned());
    r.push("analyzeduration=1500000".to_owned());
    r.push("fflags=+noparse".to_owned());
    assert(texts(r@) =~= default_options());
    r
}

/// The resident pages in a `statm` text: its second field, if it is a number.
pub open spec fn resident_pages(statm: Seq<char>) -> u64 {
    let fields = spaced_words(statm);
    if fields.len() > 1 && unsigned_value(fields[1], 10) is Some {
        unsigned_value(fields[1], 10)->0
    } else {
        0
    }
}

/// The number of resident pages in a `statm` text (0 if unavailable).
pub fn pages_resident(statm: &str) -> (r: u64)
    ensures
        r == resident_pages(statm@),
{
    let chars = to_chars(statm);
    let fields = split_whitespace(chars.as_slice());
    assert(char_lists(fields@) == spaced_words(statm@));
    if fields.len() > 1 {
        assert(fields@[1]@ == spaced_words(statm@)[1]);
        if let Some(pages) = parse_unsigned(fields[1].as_slice(), 10) {
            return pages;
        }
    }
    0
}

/// The resident set size in KiB, with pages of 4 KiB (0 if unavailable).
pub fn rss_kib(statm: &str) -> (r: u64)
    requires
        4 * resident_pages(statm@) <= u64::MAX,
    ensures
        r == 4 * resident_pages(statm@),
{
    pages_resident(statm) * 4
}

} // verus!
