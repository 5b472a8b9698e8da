//! What keeps a run going: workers that are watched, outputs that come back, and
//! packets that are passed on.
use vstd::prelude::*;

use crate::annexb::{code_at, VideoCodec};
use crate::media::{live, plan_of, silent, stream_of, AudioParser, OutSink, SinkStep};
use crate::nal::{code_start, first_vcl, key_at, vcl_at};
use crate::passthrough::{first_equals, first_video, input_step, options, output_after};
use crate::passthrough::{output_step, passed, Arrival, InputStep, OutputStep, OutputSync};
use crate::passthrough::StreamKind;
use crate::probe::{arrival_of, arrivals, packet_pts, pes_at, video_pts};
use crate::supervisor::{Finding, Incoming, Policy, Reaction, Reader, Waiting};
use crate::ts::pts_bits;
use crate::ts_field_laws::timestamp;
use crate::worker::{Beat, Tick, Ticker};

verus! {

/// A worker is left alone exactly while it is running, has reported nothing
/// fatal, has not been silent for longer than the timeout, and has become ready
/// in time; once shutdown has started nothing else counts. That it is gone is
/// told before what it reported.
pub proof fn law_workers_are_judged(
    p: Policy,
    stopping: bool,
    gone: Option<Seq<char>>,
    fatal: Option<Seq<char>>,
    silent_ms: u64,
    ready: bool,
    age_ms: u64,
)
    ensures
        ({
            let f = p.finding(stopping, gone, fatal, silent_ms, ready, age_ms);
            &&& f is Stop <==> stopping
            &&& f is Alive <==> !stopping && gone is None && fatal is None && silent_ms
                <= p.heartbeat_timeout && (ready || age_ms <= p.ready_timeout)
            &&& !stopping && gone is Some ==> f == Finding::Died(gone->0)
            &&& !stopping && gone is None && fatal is Some ==> f == Finding::Died(fatal->0)
        }),
{
}

/// Waits start at the first one and double with every failure up to the longest.
pub proof fn law_restarts_wait_twice_as_long(p: Policy, failures: u32)
    requires
        0 < p.backoff_initial <= p.backoff_max,
        failures < 31,
    ensures
        p.delay(0) == p.backoff_initial,
        p.delay((failures + 1) as u32) == if 2 * p.delay(failures) < p.backoff_max {
            2 * p.delay(failures)
        } else {
            p.backoff_max as int
        },
{
    let n = failures as nat;
    let x = p.backoff_initial as int;
    let y = crate::backoff::power_of_two(n) as int;
    assert(crate::backoff::power_of_two(n + 1) == 2 * y);
    assert(x * (2 * y) == 2 * (x * y)) by (nonlinear_arith);
    assert(crate::backoff::power_of_two(0) == 1);
    assert(x * 1 == x) by (nonlinear_arith);
}

/// A queue that was closed, or whose worker is being stopped, takes nothing more
/// and keeps what it has. Otherwise the frame is kept, and every frame that has to
/// go for it is one of the oldest and is counted.
pub proof fn law_queues_take_frames<F>(q: Waiting<F>, frame: F)
    requires
        q.wf(),
    ensures
        ({
            let (clean, after) = q.send(frame);
            let shut = q.closed || q.stopping;
            let n = q.frames.len() + 1 - after.frames.len();
            &&& shut ==> !clean && after == q
            &&& !shut ==> {
                &&& after.frames.len() > 0 && after.frames.last() == frame
                &&& after.frames.drop_last() == q.frames.skip(n)
                &&& clean <==> n == 0
                &&& n == 0 <==> q.frames.len() < q.capacity
                &&& n > 0 ==> after.frames.len() == q.capacity
                &&& q.dropped + n <= u64::MAX ==> after.dropped == q.dropped + n
            }
        }),
{
    let after = q.send(frame).1;
    let n = q.frames.len() + 1 - after.frames.len();
    if !(q.closed || q.stopping) {
        assert(after.frames.drop_last() =~= q.frames.skip(n));
    }
}

/// Everything that a worker puts out is handed on, it becomes ready once, and its
/// heartbeats are no more than signs of life. A frame that is not understood, or
/// one that only the main process may send, is passed over and counted; a broken
/// frame ends the worker.
pub proof fn law_reactions_fit_what_came(r: Reader, incoming: Incoming)
    requires
        r.soft_errors < u64::MAX,
    ensures
        ({
            let (reaction, after) = r.reacted(incoming);
            &&& reaction == Reaction::Deliver <==> incoming == Incoming::Output
            &&& reaction == Reaction::BecomeReady <==> incoming == Incoming::Ready && !r.ready
            &&& reaction == Reaction::ProtocolFatal <==> incoming == Incoming::Broken
            &&& reaction == Reaction::CloseFatal <==> incoming == Incoming::Closed
            &&& reaction == Reaction::Alive <==> incoming == Incoming::Heartbeat || (incoming
                == Incoming::Ready && r.ready)
            &&& after.ready == (r.ready || incoming == Incoming::Ready)
            &&& after.soft_errors == r.soft_errors + (if incoming == Incoming::Bad || incoming
                == Incoming::Request {
                1int
            } else {
                0
            })
            &&& incoming == Incoming::Bad && r.soft_errors < 10 ==> reaction
                == (Reaction::Ignore { log: true })
        }),
{
}

/// A heartbeat goes out every 500 ms, numbered in turn, while the worker is not
/// stopped, paused or stalled. A time that passes without one is not made up
/// for. A stall is reported once, and reported again only after a heartbeat.
pub proof fn law_heartbeats_come_twice_a_second(t: Ticker, beat: Beat, limit_ms: u64, now: u64)
    requires
        t.next_ms + 500 <= u64::MAX,
        t.seq < u64::MAX,
    ensures
        ({
            let (tick, after) = t.due(beat, limit_ms, now);
            let due = !beat.stop && now >= t.next_ms;
            let held = beat.paused || beat.stalled(limit_ms, now);
            &&& tick == Tick::Stop <==> beat.stop
            &&& tick == Tick::Sleep <==> !beat.stop && now < t.next_ms
            &&& tick is Send <==> due && !held
            &&& tick matches Tick::Send(n) ==> n == t.seq
            &&& after.seq == t.seq + (if tick is Send {
                1int
            } else {
                0
            })
            &&& after.next_ms == t.next_ms + (if due {
                500int
            } else {
                0
            })
            &&& tick == Tick::Warn <==> due && !beat.paused && beat.stalled(limit_ms, now)
                && !t.warned
            &&& tick is Warn ==> after.warned
            &&& tick is Send ==> !after.warned
        }),
{
}

/// Work stalls when it has gone on for longer than the limit, and any one piece
/// of work is enough.
pub proof fn law_long_work_is_a_stall(beat: Beat, limit_ms: u64, now: u64, id: u64)
    requires
        beat.busy.contains_key(id),
        now - beat.busy[id] > limit_ms,
    ensures
        beat.stalled(limit_ms, now),
{
}

/// An output that fails is taken down and waits: half a second after the first
/// failure, twice as long after each further one, ten seconds at most. After
/// thirty seconds of running the wait starts over. An output that runs without
/// errors is left alone.
pub proof fn law_outputs_wait_before_they_come_back(s: OutSink, errors: u64, eos: bool, now: u64)
    requires
        s.wf(),
        s.running,
        now + 10_000 <= u64::MAX,
    ensures
        ({
            let (step, after) = s.polled(errors, eos, now);
            let bad = errors > 0 || eos;
            &&& step == (if bad {
                SinkStep::Stop
            } else {
                SinkStep::Keep
            })
            &&& after.running == !bad
            &&& bad ==> after.retry_at == Some((now + s.backoff_ms) as u64)
            &&& bad ==> after.backoff_ms == (if 2 * s.backoff_ms < 10_000 {
                2 * s.backoff_ms
            } else {
                10_000
            })
            &&& !bad ==> after.backoff_ms == (if s.started is Some && now - s.started->0
                >= 30_000 {
                500
            } else {
                s.backoff_ms
            })
            &&& s.errors + errors <= u64::MAX ==> after.errors == s.errors + errors
            &&& after.starts == s.starts
        }),
{
}

/// An output that is down is built again when its wait is over, and not before.
pub proof fn law_outputs_come_back_on_time(s: OutSink, errors: u64, eos: bool, now: u64)
    requires
        !s.running,
    ensures
        s.polled(errors, eos, now).1 == s,
        s.polled(errors, eos, now).0 == SinkStep::Build <==> s.retry_at is Some && now
            >= s.retry_at->0,
        s.polled(errors, eos, now).0 != SinkStep::Stop,
{
}

/// An input that never brought data is neither live nor silent; one that did is
/// silent once more than the watchdog's time has passed since, and live while
/// less has.
pub proof fn law_the_watchdog_waits_for_data(last_ns: u64, now_ns: u64, watchdog_ns: u64)
    ensures
        last_ns == 0 ==> !live(last_ns, now_ns, watchdog_ns) && !silent(
            last_ns,
            now_ns,
            watchdog_ns,
        ),
        last_ns > 0 && now_ns > last_ns + watchdog_ns <==> silent(last_ns, now_ns, watchdog_ns),
        last_ns > 0 && now_ns < last_ns + watchdog_ns && watchdog_ns > 0 <==> live(
            last_ns,
            now_ns,
            watchdog_ns,
        ),
{
}

/// The first audio stream goes to the output, the chosen one to speech
/// recognition if it is AAC, and no other is used.
pub proof fn law_audio_streams_are_picked(
    name: Seq<char>,
    version: Option<i32>,
    index: u32,
    track: u32,
)
    ensures
        ({
            let aac = name == "audio/mpeg"@ && (version == Some(2i32) || version == Some(4i32));
            let plan = plan_of(name, version, index, track);
            &&& plan is None <==> index != 0 && index != track
            &&& plan matches Some(p) ==> {
                &&& p.to_output <==> index == 0
                &&& p.to_tap <==> index == track && aac
                &&& p.parser == AudioParser::Aac <==> aac
                &&& p.tap_refused ==> !p.to_tap && index == track
                &&& index == track && !p.to_tap && !p.tap_refused ==> p.parser
                    == AudioParser::Plain
            }
        }),
{
}

/// A codec is told by the name of its stream.
pub proof fn law_streams_are_told_by_name(rest: Seq<char>)
    ensures
        stream_of("audio/"@ + rest) == crate::media::StreamKind::Audio,
        stream_of("video/x-h264"@) == crate::media::StreamKind::Video(crate::media::Codec::H264),
        stream_of("video/x-h265"@) == crate::media::StreamKind::Video(crate::media::Codec::Hevc),
{
    reveal_strlit("audio/");
    reveal_strlit("video/x-h264");
    reveal_strlit("video/x-h265");
    let s = "audio/"@ + rest;
    assert(s[0] == 'a');
    assert("audio/"@.is_prefix_of(s)) by {
        assert(s.subrange(0, "audio/"@.len() as int) =~= "audio/"@);
    }
    assert("video/x-h264"@[11] == '4' && "video/x-h265"@[11] == '5');
    assert("video/x-h264"@[0] == 'v');
}

/// An output in step writes every packet of its streams and stays in step.
pub proof fn law_outputs_in_step_write_all(s: OutputSync, p: Arrival)
    requires
        s.wf(),
        s.synced,
        !p.lost,
        s.layout_id == p.layout_id || p.same_streams,
    ensures
        output_step(s, p) == OutputStep::Write,
        output_after(s, p).synced && output_after(s, p).header,
{
}

/// An output out of step, or one that lost packets, writes again from a keyframe
/// of the video that is less than 300 ms old, and from nothing else; the first
/// time it writes its header before it.
pub proof fn law_outputs_get_back_in_step(s: OutputSync, p: Arrival)
    requires
        s.wf(),
        !s.synced || p.lost,
        !s.header || s.layout_id == p.layout_id || p.same_streams,
    ensures
        ({
            let fresh = p.video && p.key && p.age_ns < 300_000_000;
            &&& !fresh ==> output_step(s, p) == OutputStep::Skip
            &&& fresh && s.header ==> output_step(s, p) == OutputStep::Write
            &&& fresh && !s.header ==> output_step(s, p) == OutputStep::Start
            &&& output_after(s, p).synced == fresh
            &&& fresh || s.header ==> output_after(s, p).header && output_after(s, p).layout_id
                == p.layout_id
        }),
{
}

/// Other streams than the header describes open the output anew, and only they
/// do.
pub proof fn law_new_streams_reopen_the_output(s: OutputSync, p: Arrival)
    ensures
        output_step(s, p) == OutputStep::Reopen <==> s.header && s.layout_id != p.layout_id
            && !p.same_streams,
        output_step(s, p) == OutputStep::Reopen ==> !output_after(s, p).header && !output_after(
            s,
            p,
        ).synced,
{
}

/// A packet goes to its stream's place with the times it has, each standing in
/// for the other where that is missing. One without any time, or of a stream that
/// is not passed on, goes nowhere.
pub proof fn law_packets_keep_their_times(
    map: Seq<Option<usize>>,
    stream: usize,
    dts: Option<i64>,
    pts: Option<i64>,
)
    ensures
        ({
            let step = input_step(map, stream, dts, pts);
            let known = stream < map.len();
            let wanted = known && map[stream as int] is Some;
            &&& step == InputStep::Reopen <==> !known
            &&& step == InputStep::Skip <==> known && !wanted
            &&& step == InputStep::Untimed <==> wanted && dts is None && pts is None
            &&& step matches InputStep::Pass { stream: to, dts: d, pts: t } ==> {
                &&& wanted && Some(to) == map[stream as int]
                &&& dts is Some ==> d == dts->0
                &&& dts is None ==> pts == Some(d)
                &&& pts is Some ==> t == pts->0
                &&& pts is None ==> dts == Some(t)
            }
        }),
{
}

/// The streams that are passed on are numbered from 0 without gaps, in order.
pub proof fn law_passed_streams_are_numbered(kinds: Seq<StreamKind>, i: int, j: int)
    requires
        0 <= i < j <= kinds.len(),
    ensures
        passed(kinds, 0) == 0,
        kinds[i] != StreamKind::Other ==> passed(kinds, i as nat) < passed(kinds, j as nat),
        passed(kinds, i as nat) <= passed(kinds, j as nat) <= passed(kinds, i as nat) + (j - i),
        kinds[i] == StreamKind::Other && j == i + 1 ==> passed(kinds, j as nat) == passed(
            kinds,
            i as nat,
        ),
    decreases j,
{
    if j > i + 1 {
        law_passed_streams_are_numbered(kinds, i, j - 1);
    }
}

/// Captions go on the first video stream.
pub proof fn law_the_first_video_is_captioned(kinds: Seq<StreamKind>, from: int)
    requires
        0 <= from <= kinds.len(),
    ensures
        match first_video(kinds, from) {
            Some(v) => {
                &&& from <= v < kinds.len() && kinds[v] == StreamKind::Video
                &&& forall|k: int| from <= k < v ==> #[trigger] kinds[k] != StreamKind::Video
            },
            None => forall|k: int|
                from <= k < kinds.len() ==> #[trigger] kinds[k] != StreamKind::Video,
        },
    decreases kinds.len() - from,
{
    if from < kinds.len() && kinds[from] != StreamKind::Video {
        law_the_first_video_is_captioned(kinds, from + 1);
    }
}

proof fn lemma_first_equals(key: Seq<char>, value: Seq<char>, i: int)
    requires
        0 <= i <= key.len(),
        forall|k: int| 0 <= k < key.len() ==> #[trigger] key[k] != '=',
    ensures
        first_equals(key + seq!['='] + value, i) == Some(key.len() as int),
    decreases key.len() - i,
{
    let s = key + seq!['='] + value;
    if i < key.len() {
        assert(s[i] == key[i]);
        lemma_first_equals(key, value, i + 1);
    } else {
        assert(s[i] == '=');
    }
}

/// An option is a name, an equals sign and a value, which may hold further equals
/// signs; options keep their order.
pub proof fn law_options_are_names_and_values(
    list: Seq<Seq<char>>,
    key: Seq<char>,
    value: Seq<char>,
)
    requires
        forall|k: int| 0 <= k < key.len() ==> #[trigger] key[k] != '=',
    ensures
        options(list.push(key + seq!['='] + value)) == options(list).push((key, value)),
{
    let s = key + seq!['='] + value;
    lemma_first_equals(key, value, 0);
    assert(list.push(s).drop_last() =~= list);
    assert(s.take(key.len() as int) =~= key);
    assert(s.skip(key.len() + 1int) =~= value);
}

/// The video timestamps of packets behind one another are those of the first and
/// those of the rest.
pub proof fn law_timestamps_come_packet_by_packet(buf: Seq<u8>, i: int)
    requires
        0 <= i,
        i + 188 <= buf.len(),
    ensures
        video_pts(buf, i) == (match packet_pts(buf.subrange(i, i + 188)) {
            Some(v) => seq![v],
            None => seq![],
        }) + video_pts(buf, i + 188),
        forall|k: int| k + 188 > buf.len() ==> (#[trigger] video_pts(buf, k)).len() == 0,
{
    if packet_pts(buf.subrange(i, i + 188)) is None {
        assert(Seq::<int>::empty() + video_pts(buf, i + 188) =~= video_pts(buf, i + 188));
    }
}

/// A packet gives a timestamp when it starts a video PES whose header has one,
/// with or without a decode time: the 33 bits in the five bytes behind it.
pub proof fn law_video_packets_give_their_timestamp(ts: Seq<u8>)
    requires
        ts.len() == 188,
    ensures
        ({
            let adapted = (ts[3] / 32) % 2 == 1;
            let p = if adapted {
                5 + ts[4]
            } else {
                4
            };
            let starts = ts[0] == 0x47 && (ts[1] / 64) % 2 == 1 && (ts[3] / 16) % 2 == 1;
            &&& packet_pts(ts) is Some <==> starts && p + 14 <= 188 && ts[p] == 0 && ts[p + 1] == 0
                && ts[p + 2] == 1 && 0xE0 <= ts[p + 3] <= 0xEF && ts[p + 7] >= 128
            &&& packet_pts(ts) matches Some(v) ==> v == timestamp(ts, p + 9) && 0 <= v < 0x2_0000_0000
        }),
{
    let a = ts[1];
    let c = ts[3];
    assert((a & 0x40 == 0) == ((a / 64) % 2 == 0) && ((((c >> 4) & 3) & 1 == 0) == ((c / 16) % 2
        == 0)) && ((((c >> 4) & 3) & 2 != 0) == ((c / 32) % 2 == 1))) by (bit_vector);
    let p = if (ts[3] / 32) % 2 == 1 {
        5 + ts[4]
    } else {
        4
    };
    if p + 14 <= 188 {
        let d = ts[p + 3];
        let f = ts[p + 7];
        assert((d & 0xF0 != 0xE0) == !(0xE0 <= d <= 0xEF) && (f & 0x80 == 0) == (f < 128))
            by (bit_vector);
        let x = ts[p + 9];
        let y = ts[p + 11];
        let z = ts[p + 13];
        assert((x >> 1) & 7 == x / 2 % 8 && y >> 1 == y / 2 && z >> 1 == z / 2) by (bit_vector);
        let b = ts.subrange(p + 9, p + 14);
        assert(b[0] == x && b[1] == ts[p + 10] && b[2] == y && b[3] == ts[p + 12] && b[4] == z);
        assert(p + 9 + 1 == p + 10 && p + 9 + 2 == p + 11 && p + 9 + 3 == p + 12 && p + 9 + 4 == p
            + 13);
        assert(pts_bits(b) == timestamp(ts, p + 9));
        assert(pes_at(ts) == p);
    }
}

/// Of several arrivals of a timestamp the first counts.
pub proof fn law_first_arrivals_count(list: Seq<Seq<char>>, line: Seq<char>, pts: i64)
    ensures
        ({
            let before = arrivals(list);
            let after = arrivals(list.push(line));
            &&& before.contains_key(pts) ==> after.contains_key(pts) && after[pts] == before[pts]
            &&& !before.contains_key(pts) ==> (after.contains_key(pts) <==> arrival_of(
                line,
            ) is Some && (arrival_of(line)->0).0 == pts)
            &&& !before.contains_key(pts) && after.contains_key(pts) ==> after[pts] == (
            arrival_of(line)->0).1
        }),
{
    assert(list.push(line).drop_last() =~= list);
}

/// Slices and keyframes are told by the type in the byte behind the start code:
/// 1 to 5 and 5 in H.264, up to 31 and 16 to 23 in HEVC.
pub proof fn law_units_are_told_by_type(data: Seq<u8>, i: int)
    requires
        0 <= i,
        i + 3 < data.len(),
        code_at(data, i),
    ensures
        vcl_at(data, VideoCodec::H264, i) <==> 1 <= data[i + 3] % 32 <= 5,
        vcl_at(data, VideoCodec::Hevc, i) <==> (data[i + 3] / 2) % 64 <= 31,
        key_at(data, VideoCodec::H264, i) <==> data[i + 3] % 32 == 5,
        key_at(data, VideoCodec::Hevc, i) <==> 16 <= (data[i + 3] / 2) % 64 <= 23,
{
    let b = data[i + 3];
    assert(b & 0x1F == b % 32 && (b >> 1) & 0x3F == (b / 2) % 64) by (bit_vector);
}

/// The caption data goes in front of the first slice and its whole start code:
/// no slice comes before that place, and the byte before a four-byte start code
/// is part of it.
pub proof fn law_captions_go_before_the_picture(data: Seq<u8>, codec: VideoCodec, from: int)
    requires
        0 <= from,
    ensures
        match first_vcl(data, codec, from) {
            Some(v) => {
                &&& from <= v && vcl_at(data, codec, v)
                &&& forall|k: int| from <= k < v ==> !#[trigger] vcl_at(data, codec, k)
                &&& v > 0 && data[v - 1] == 0 ==> code_start(data, v) == v - 1
                &&& v == 0 || data[v - 1] != 0 ==> code_start(data, v) == v
            },
            None => forall|k: int| from <= k ==> !#[trigger] vcl_at(data, codec, k),
        },
    decreases data.len() - from,
{
    if from + 3 < data.len() && !vcl_at(data, codec, from) {
        law_captions_go_before_the_picture(data, codec, from + 1);
    }
}

} // verus!
