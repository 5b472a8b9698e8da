use multi::audio::{to_mono, AudioChunk, TapClock};
use multi::bridge::{Bridge, Rebase, Verdict, AUDIO, LATE_TOL_NS, SEC, VIDEO};
use multi::captioner::{Captioner, EncoderStep};
use multi::captions::{lane_stats, CHANNEL_CAP};
use multi::config::{default_languages, CaptionMode, Captions, Cc608, Config};
use multi::encoder::EncoderQueue;
use multi::lanes::{lane_specs, TrackCfg};
use multi::media::{
    audio_parser, audio_plan, input_live, missing_elements, required_elements, rtmp_carries, stream_kind,
    AudioParser, Codec, InputControl, MediaConfig, OutSink, SinkStep, StreamKind,
};
use multi::plan::{
    branch_plan, caption_plan, frame_rate, input_plan, output_plan, sink_plan, tap_plan, text_caps,
    Element, Graph, Maker,
};
use multi::run::{default_asr, default_mt, worker_command, workers, Framer};
use multi::script::{Input, Script, Step};
use multi::segment::{Event, Segmenter, MAX_WORDS};
use multi::supervisor::{
    shows_life, Incoming, Next, Outcome, Policy, Reaction, Reader, SendQueue, State, Status,
};
use multi::textpath::TextPath;
use multi::translate::{
    answer, decoding_length, error_message, expired_in_queue, join_translations,
    max_decoding_length, model_dir, past_deadline, refusal, sentences, Answer,
};
use multi::types::{Clause, Translation, Word};

const MS: i64 = 1_000_000;

fn open(r: &mut Rebase, frames: &[(i64, i64)]) {
    for &(pts, rt) in frames {
        let _ = r.classify(VIDEO, pts, rt);
    }
    assert!(r.finish_hold());
}

fn out_pts(r: &mut Rebase, s: usize, in_pts: i64, now_rt: i64) -> i64 {
    r.out_ts(s, in_pts, 0, now_rt).unwrap().0
}

#[test]
fn audio_before_video_dropped() {
    let mut r = Rebase::default();
    assert_eq!(r.classify(AUDIO, 0, 10 * SEC), Verdict::Drop);
    assert_eq!(
        r.classify(VIDEO, 0, 10 * SEC),
        Verdict::Session { new: true }
    );
    assert_eq!(
        r.classify(AUDIO, -100 * MS, 10 * SEC),
        Verdict::Session { new: false }
    );
}

#[test]
fn burst_start_uses_earliest_arrival() {
    let mut r = Rebase::default();
    // First 3 frames released together 300 ms late, then on time.
    open(
        &mut r,
        &[
            (0, 1300 * MS),
            (33 * MS, 1300 * MS),
            (66 * MS, 1300 * MS),
            (100 * MS, 1100 * MS),
        ],
    );
    // (floor is 40 ms, below the 1000 ms steady-state offset)
    assert_eq!(r.offset, 1000 * MS);
    // Steady state: frame at pts 200 ms arrives at rt 1200 ms -> exactly on time.
    assert_eq!(out_pts(&mut r, VIDEO, 200 * MS, 1200 * MS), 1200 * MS);
}

#[test]
fn restart_to_zero_moves_forward() {
    let mut r = Rebase::default();
    open(&mut r, &[(5 * SEC, 10 * SEC)]);
    let o = out_pts(&mut r, VIDEO, 7 * SEC, 12 * SEC);
    assert_eq!(o, 12 * SEC);
    let _ = r.classify(VIDEO, 7 * SEC + 33 * MS, 12 * SEC + 33 * MS);
    // Source restarts with PTS back at 0 after a 5 s gap.
    assert_eq!(
        r.classify(VIDEO, 0, 17 * SEC),
        Verdict::Session { new: true }
    );
    assert!(r.finish_hold());
    assert_eq!(out_pts(&mut r, VIDEO, 0, 17 * SEC), 17 * SEC);
    // Audio of the new session adopts the same offset.
    assert_eq!(
        r.classify(AUDIO, 10 * MS, 17 * SEC),
        Verdict::Session { new: false }
    );
    assert_eq!(out_pts(&mut r, AUDIO, 10 * MS, 17 * SEC), 17 * SEC + 10 * MS);
}

#[test]
fn restart_with_clock_behind_never_goes_back() {
    let mut r = Rebase::default();
    open(&mut r, &[(100 * SEC, 5 * SEC)]);
    let last = out_pts(&mut r, VIDEO, 100 * SEC, 5 * SEC);
    r.force_new = true;
    let _ = r.classify(VIDEO, 0, 0);
    assert!(r.finish_hold());
    assert!(out_pts(&mut r, VIDEO, 0, 0) > last);
}

#[test]
fn burst_below_zero_starts_late_then_catches_up() {
    let mut r = Rebase::default();
    // Frames 2.0..2.5 s released at rt 0.08 s, then steady arrival 2.5 s behind PTS.
    let mut f: Vec<(i64, i64)> = (0..15).map(|k| (2 * SEC + k * 33 * MS, 80 * MS)).collect();
    f.push((2500 * MS, 10 * MS));
    open(&mut r, &f);
    // First frame at the 40 ms floor (+1 ms of catch-up slew).
    assert_eq!(out_pts(&mut r, VIDEO, 2 * SEC, 500 * MS), 41 * MS);
    let mut late = 0;
    for k in 16..1000 {
        let pts = 2 * SEC + k * 33 * MS;
        let rt = pts - 2490 * MS;
        late = rt - out_pts(&mut r, VIDEO, pts, rt);
    }
    assert!((0..=LATE_TOL_NS).contains(&late), "late {late}");
}

#[test]
fn b_frames_keep_pts_order() {
    let mut r = Rebase::default();
    open(&mut r, &[(0, SEC)]);
    let f = 33_333_333;
    // Decode order I0 P3 B1 B2 with DTS = decode slot - 2 frames.
    let mut pts = Vec::new();
    for (k, p) in [0i64, 3, 1, 2, 6, 4, 5].into_iter().enumerate() {
        let in_pts = p * f;
        let dts = (k as i64 - 2) * f;
        let (o, _) = r
            .out_ts(VIDEO, in_pts, dts - in_pts, SEC + k as i64 * f - 2 * f)
            .unwrap();
        pts.push(o - SEC);
    }
    let want: Vec<i64> = [0i64, 3, 1, 2, 6, 4, 5].iter().map(|p| p * f).collect();
    assert_eq!(pts, want);
}

#[test]
fn early_frames_slew_monotonic() {
    let mut r = Rebase::default();
    open(&mut r, &[(0, SEC)]);
    let mut last = 0;
    assert_eq!(r.offset, SEC);
    // Source clock 1% fast: each frame arrives 0.33 ms "earlier".
    for k in 1..300 {
        let pts = k * 33_333_333;
        let rt = SEC + (pts as f64 * 0.99) as i64;
        let o = out_pts(&mut r, VIDEO, pts, rt);
        assert!(o > last);
        assert!(o - rt <= 0, "frame {k} early by {}", o - rt);
        last = o;
    }
}

#[test]
fn times_that_do_not_fit_are_refused() {
    let mut r = Rebase::default();
    r.offset = i64::MAX;
    let before = r;
    assert_eq!(r.out_ts(AUDIO, 1, 0, 0), None);
    assert_eq!(r, before);
    r.min_off = 0;
    r.first_in = i64::MIN;
    assert!(!r.finish_hold());
}

#[test]
fn bridge_holds_then_forwards_in_order() {
    let mut b: Bridge<u32> = Bridge::new();
    // Audio before video is dropped.
    assert!(b.push(AUDIO, 0, 0, 1000 * MS, 0).dropped);
    let p = b.push(VIDEO, 0, 0, 1000 * MS, 1);
    assert!(p.new_session && !p.dropped && p.out.is_empty());
    assert!(b.push(AUDIO, 20 * MS, 0, 1010 * MS, 2).out.is_empty());
    // The hold ends: everything held goes out, cut at the first buffer.
    let p = b.push(VIDEO, 33 * MS, 0, 1500 * MS, 3);
    let items: Vec<(u32, bool)> = p.out.iter().map(|x| (x.item, x.first)).collect();
    assert_eq!(items, [(1, true), (2, false), (3, false)]);
    assert_eq!(p.out[0].times, Some((1001 * MS, 1001 * MS)));
    let p = b.push(VIDEO, 66 * MS, 0, 1066 * MS, 4);
    assert_eq!(p.out.len(), 1);
    assert!(!p.out[0].first);
    assert_eq!(b.sessions(), 1);
    // A rebuilt input starts a session; what was held is gone.
    b.reset();
    assert!(b.push(VIDEO, 0, 0, 2000 * MS, 5).new_session);
    b.reset();
    assert!(b.push(VIDEO, 0, 0, 2000 * MS, 6).out.is_empty());
    let p = b.push(VIDEO, 33 * MS, 0, 2600 * MS, 7);
    let items: Vec<u32> = p.out.iter().map(|x| x.item).collect();
    assert_eq!(items, [6, 7]);
    b.set_targets();
    assert_eq!(b.sessions(), 0);
}

#[test]
fn default_layout() {
    let specs = lane_specs(&default_languages(), &Captions::default()).unwrap();
    let tracks: Vec<_> = specs
        .iter()
        .map(|s| (s.lang.as_str(), s.track.clone()))
        .collect();
    let t708 = |service, ch| TrackCfg::Cea708 {
        service,
        cea608_channel: ch,
        mode: "roll-up".into(),
        roll_up_rows: 3,
    };
    assert_eq!(
        tracks,
        vec![
            ("en", t708(1, 1)),
            ("es", t708(2, 3)),
            ("fr", t708(3, 0)),
            ("de", t708(4, 0))
        ]
    );
}

#[test]
fn pop_on_608_only_and_unsupported_channels() {
    let mut langs = default_languages();
    langs[1].cea708_service = None;
    let c = Captions {
        mode: CaptionMode::PopOn,
        ..Captions::default()
    };
    let specs = lane_specs(&langs, &c).unwrap();
    assert_eq!(
        specs[1].track,
        TrackCfg::Cea608 {
            field: 1,
            mode: "pop-on".into()
        }
    );
    langs[1].cc608 = Some(Cc608::Cc2);
    assert!(lane_specs(&langs, &c).is_err());
}

#[test]
fn lane_errors_name_the_language() {
    let mut langs = default_languages();
    let c = Captions {
        rows: 9,
        ..Captions::default()
    };
    langs[0].cea708_service = None;
    assert_eq!(
        lane_specs(&langs, &c).unwrap()[0].track,
        TrackCfg::Cea608 {
            field: 0,
            mode: "roll-up4".into()
        }
    );
    langs[0].cc608 = None;
    assert_eq!(
        lane_specs(&langs, &c).unwrap_err(),
        "language en has no 608 channel or 708 service"
    );
    langs[0].cc608 = Some(Cc608::Cc4);
    assert_eq!(
        lane_specs(&langs, &c).unwrap_err(),
        "language en: Cc4 is not supported yet (only CC1 and CC3)"
    );
    assert_eq!(lane_specs(&[], &c).unwrap_err(), "no caption languages");
}

#[test]
fn handle_routes_by_language_and_never_blocks() {
    let specs = lane_specs(&default_languages(), &Captions::default()).unwrap();
    let (_cap, mut h) = Captioner::new(&specs, &Captions::default());
    assert!(h.push("es", "hola", true, 0));
    assert!(!h.push("xx", "nope", false, 0));
    for _ in 0..CHANNEL_CAP + 10 {
        h.push("en", "word", false, 0);
    }
    let st = lane_stats(h.languages(), h.counters());
    assert_eq!(st[0].dropped, 11);
    let line = h.receive().unwrap();
    assert_eq!(
        (line.lane, line.text.as_str(), line.new_row),
        (1, "hola", true)
    );
    h.discard();
    assert_eq!(h.counters()[0].dropped, 11 + 1023);
    assert!(h.receive().is_none());
    assert!(h.push("en", "  ", false, 0));
    assert!(h.receive().is_none());
}

fn captioner(mode: CaptionMode) -> (Captioner, multi::captions::CaptionHandle) {
    let c = Captions {
        mode,
        offset_ms: 100,
        ..Captions::default()
    };
    let specs = lane_specs(&default_languages(), &c).unwrap();
    Captioner::new(&specs, &c)
}

#[test]
fn text_is_fed_when_due_and_the_encoder_is_ready() {
    let (mut cap, mut h) = captioner(CaptionMode::RollUp);
    assert!(cap.rolls_up());
    assert_eq!(cap.ensure_encoder((30, 1), 0), EncoderStep::Build);
    cap.built((30, 1));
    assert_eq!(cap.ensure_encoder((30, 1), 0), EncoderStep::Ready);
    h.push("en", "hello", true, 1000);
    cap.receive(&mut h);
    // Not due yet, then the encoder is too far ahead, then it is fed.
    assert!(cap.feed_lane(&mut h, 0, 0, 1099).is_none());
    assert!(cap.feed_lane(&mut h, 0, 7, 1100).is_none());
    let line = cap.feed_lane(&mut h, 0, 6, 1100).unwrap();
    assert_eq!(line.text, "hello");
    cap.count_lane(&mut h, 0, Some(true));
    assert_eq!(
        (h.counters()[0].pushed, h.counters()[0].dropped, h.counters()[0].queued),
        (1, 0, 0)
    );
}

#[test]
fn backlog_drops_the_oldest_text() {
    let (mut cap, mut h) = captioner(CaptionMode::RollUp);
    cap.built((30, 1));
    for _ in 0..3 {
        h.push("en", &"x".repeat(100), false, 0);
    }
    h.push("en", "last", false, 0);
    cap.receive(&mut h);
    // 304 characters at 40 per second are more than 6 s; 204 are not.
    assert!(cap.feed_lane(&mut h, 0, 7, 1000).is_none());
    cap.count_lane(&mut h, 0, None);
    assert_eq!((h.counters()[0].dropped, h.counters()[0].queued), (1, 3));
    // An encoder 60 frames (2 s) ahead leaves room for 160 characters.
    assert!(cap.feed_lane(&mut h, 0, 60, 1000).is_none());
    cap.count_lane(&mut h, 0, Some(false));
    assert_eq!((h.counters()[0].dropped, h.counters()[0].queued), (3, 2));
}

#[test]
fn frames_follow_the_grid() {
    let (mut cap, _) = captioner(CaptionMode::PopOn);
    assert!(!cap.rolls_up());
    cap.built((30000, 1001));
    assert_eq!(cap.hold_frames(), 120); // 4 s
    assert_eq!(cap.align(5_000_000_000), Some(0));
    assert!(cap.store(vec![1], 0, 0));
    assert_eq!(cap.take(0), Some(vec![1]));
    assert_eq!(cap.align(5_000_000_000 + 33_366_667), Some(1));
    assert!(cap.store(vec![], 0, 0));
    assert_eq!(cap.take(1), None);
    // Two frames on, then one back.
    assert_eq!(cap.align(5_000_000_000 + 3 * 33_366_667), Some(3));
    assert!(cap.store(vec![2], 0, 0));
    assert!(cap.store(vec![3], 0, 0));
    assert_eq!(cap.take(3), Some(vec![3]));
    assert_eq!(cap.align(5_000_000_000 + 2 * 33_366_667), Some(2));
    assert_eq!(cap.take(2), Some(vec![2]));
    assert_eq!(cap.take(2), None);
    // A jump of minutes re-anchors.
    assert_eq!(cap.align(600_000_000_000), Some(4));
    // Too long without output: the encoder goes, and is rebuilt after a while.
    assert!(!cap.store(vec![], 151, 1000));
    assert!(!cap.has_encoder());
    assert_eq!(cap.errors(), 1);
    assert_eq!(cap.next_index(), 5);
    assert_eq!(cap.ensure_encoder((30000, 1001), 5999), EncoderStep::Wait);
    assert_eq!(cap.ensure_encoder((30000, 1001), 6000), EncoderStep::Build);
}

#[test]
fn old_caption_data_is_dropped() {
    let (mut cap, _) = captioner(CaptionMode::RollUp);
    cap.built((25, 1));
    assert_eq!(cap.align(0), Some(0));
    for k in 0..50u8 {
        assert!(cap.store(vec![k], 0, 0));
    }
    assert_eq!(cap.take(40), Some(vec![40]));
    assert_eq!(cap.take(7), None);
    assert_eq!(cap.take(8), Some(vec![8]));
}

#[test]
fn encoder_output_is_matched_to_frames() {
    assert!(EncoderQueue::new(0, (30, 1)).is_none());
    assert!(EncoderQueue::new(1, (0, 1)).is_none());
    let mut q = EncoderQueue::new(2, (30000, 1001)).unwrap();
    assert_eq!(q.fps(), (30000, 1001));
    assert_eq!(q.pts(1), 33_366_666);
    for i in [0, 1, 2, 1000, 108_000] {
        assert_eq!(q.idx(q.pts(i)), i);
    }
    assert_eq!(q.lead(0, 0), 0);
    q.seen(0, q.pts(4));
    assert_eq!(q.lead(0, 2), 3);
    assert_eq!(q.lead(0, 5), 0);
    q.push(1);
    // Track 0 is ahead, track 1 got text; the next frame both need a gap or not.
    assert!(!q.needs_gap(0, 4));
    assert!(!q.needs_gap(1, 4));
    assert!(q.needs_gap(0, 5));
    assert!(q.waits_for(0));
    q.take(Some(q.pts(1)), 0, vec![7]);
    assert!(!q.waits_for(1));
    // Output for frame 1 is not handed out on frame 0.
    assert_eq!(q.frame(0, true), Vec::<u8>::new());
    assert_eq!(q.timeouts_in_row(), 1);
    assert!(q.needs_gap(1, 4));
    assert_eq!(q.frame(1, false), vec![7]);
    assert_eq!(q.timeouts_in_row(), 0);
    for _ in 0..300 {
        q.take(None, 2, vec![1]);
    }
    q.take(None, 2, vec![9]);
    let mut last = Vec::new();
    let mut n = 0;
    loop {
        let d = q.frame(2, false);
        if d.is_empty() {
            break;
        }
        last = d;
        n += 1;
    }
    assert_eq!((n, last), (256, vec![9]));
}

fn bytes(s: &[i16]) -> Vec<u8> {
    s.iter().flat_map(|x| x.to_le_bytes()).collect()
}

#[test]
fn mono_passthrough_downmix_and_pick() {
    assert_eq!(to_mono(&bytes(&[1, -2, 3]), 1, None), vec![1, -2, 3]);
    let st = bytes(&[100, 300, -50, 50]);
    assert_eq!(to_mono(&st, 2, None), vec![200, 0]);
    assert_eq!(to_mono(&st, 2, Some(1)), vec![300, 50]);
    assert_eq!(to_mono(&st, 2, Some(7)), vec![0, 0]);
}

#[test]
fn downmix_rounds_toward_zero() {
    assert_eq!(to_mono(&bytes(&[-3, 0, 3, 0, 9]), 2, None), vec![-1, 1]);
    assert_eq!(to_mono(&bytes(&[i16::MIN, i16::MIN]), 2, None), vec![i16::MIN]);
    assert_eq!(to_mono(&[1, 0, 9], 0, None), vec![1]);
}

#[test]
fn many_channels() {
    let all = vec![i16::MIN; 0x1_0000];
    assert_eq!(to_mono(&bytes(&all), 0x1_0000, None), vec![i16::MIN]);
    let mut wide = vec![0i16; 70_000];
    wide[69_999] = 7;
    assert_eq!(to_mono(&bytes(&wide), 70_000, Some(69_999)), vec![7]);
}

#[test]
fn tap_clock_bridges_missing_times() {
    let mut t = TapClock::new();
    assert_eq!(t.chunk(None, 160), 0);
    assert_eq!(t.chunk(None, 160), 10);
    assert_eq!(t.chunk(Some(500), 1600), 500);
    assert_eq!(t.chunk(None, 1), 600);
}

fn chunk(start_ms: u64, n: usize) -> AudioChunk {
    AudioChunk {
        start_ms,
        samples: vec![1; n],
    }
}

#[test]
fn framer_makes_fixed_frames_on_the_timeline() {
    let mut f = Framer::default();
    assert!(f.push(chunk(1000, 1000)).is_empty());
    let out = f.push(chunk(1062, 1000));
    assert_eq!(out.len(), 1);
    assert_eq!((out[0].0, out[0].1.len()), (1000, 1600));
    let out = f.push(chunk(1125, 2800));
    assert_eq!(
        out.iter().map(|o| o.0).collect::<Vec<_>>(),
        vec![1100, 1200]
    );
}

#[test]
fn framer_flushes_on_jump() {
    let mut f = Framer::default();
    f.push(chunk(5000, 800));
    let out = f.push(chunk(0, 800));
    assert_eq!(out, vec![(5000, vec![1; 800])]);
    let out = f.push(chunk(50, 800));
    assert_eq!(out, vec![(0, vec![1; 1600])]);
}

#[test]
fn worker_command_splits() {
    let s = worker_command("asr", "/bin/fake asr --crash-after 5").unwrap();
    assert_eq!(s.program, "/bin/fake");
    assert_eq!(s.args, ["asr", "--crash-after", "5"]);
    assert_eq!(
        worker_command("mt", "  ").unwrap_err(),
        "empty --mt-worker command"
    );
    let s = s.env("A", "b");
    assert_eq!(s.env, [("A".to_string(), "b".to_string())]);
}

#[test]
fn default_specs_follow_config() {
    let c = Config::default();
    let a = default_asr(&c, "/opt/multi", "/m");
    assert_eq!(a.program, "/opt/multi/multi-asr");
    assert_eq!(a.args[5], "en");
    assert_eq!(a.args[7], "0.5");
    let m = default_mt(&c, "/opt/multi", "/m");
    assert!(m.args.contains(&"es,fr,de".to_string()));
    assert_eq!(m.args[1], "/m/ct2");
}

#[test]
fn workers_can_be_overridden() {
    let mut c = Config::default();
    let w = workers(&c, Some("a b"), None, "bin/", "").unwrap();
    assert_eq!((w.asr.program.as_str(), w.asr.args.len()), ("a", 1));
    assert!(w.asr.env.is_empty());
    let mt = w.mt.unwrap();
    assert!(mt.env.is_empty());
    assert_eq!(mt.program, "bin/multi-mt");
    assert_eq!(
        workers(&c, None, Some(" "), "", "").err().unwrap(),
        "empty --mt-worker command"
    );
    c.languages.truncate(1);
    let w = workers(&c, None, Some(" "), "", "m").unwrap();
    assert_eq!(w.asr.program, "multi-asr");
    assert!(w.asr.args[1].starts_with("m/sherpa/"));
    assert!(w.mt.is_none());
}

fn w(text: &str, t: u64) -> Word {
    Word {
        text: text.into(),
        start_ms: t,
        end_ms: t + 100,
    }
}

fn clauses(ev: &[Event]) -> Vec<(String, bool)> {
    ev.iter()
        .filter_map(|e| match e {
            Event::Clause { clause, new_row } => Some((clause.text.clone(), *new_row)),
            _ => None,
        })
        .collect()
}

#[test]
fn punctuation_closes_and_source_streams() {
    let mut s = Segmenter::new(800);
    let now = 5000;
    let ev = s.words(&[w("Hello", 0), w("there.", 100), w("How", 200)], now);
    assert_eq!(
        ev[0],
        Event::Source {
            text: "Hello there.".into(),
            new_row: true
        }
    );
    assert_eq!(clauses(&ev), vec![("Hello there.".into(), true)]);
    assert_eq!(
        ev.last(),
        Some(&Event::Source {
            text: "How".into(),
            new_row: true
        })
    );
    // Mid-sentence continuation stays on the row.
    let ev = s.words(&[w("are", 300)], now);
    assert_eq!(
        ev,
        vec![Event::Source {
            text: "are".into(),
            new_row: false
        }]
    );
}

#[test]
fn pause_closes_clause_with_times() {
    let mut s = Segmenter::new(800);
    let t0 = 10_000;
    s.words(&[w("alpha", 1000), w("bravo", 1200)], t0);
    assert!(s.tick(t0 + 500).is_empty());
    let ev = s.tick(t0 + 800);
    match &ev[..] {
        [Event::Clause { clause, new_row }] => {
            assert_eq!(clause.text, "alpha bravo");
            assert_eq!((clause.start_ms, clause.end_ms, clause.id), (1000, 1300, 0));
            assert!(*new_row);
        }
        other => panic!("unexpected {other:?}"),
    }
    assert!(s.tick(t0 + 5000).is_empty());
}

#[test]
fn clauses_over_a_run_of_calls() {
    let mut s = Segmenter::new(800);
    let mut events = Vec::new();
    let mut spoken = String::new();
    for call in 0..40u64 {
        let now = call * 300;
        let ws: Vec<Word> = (0..call % 11)
            .map(|k| match (call + k) % 13 {
                0 => w(" stop. ", now + k),
                1 => w("...", now + k),
                2 => w("  ", now + k),
                _ => w(&format!("w{call}x{k}"), now + k),
            })
            .collect();
        spoken.extend(ws.iter().map(|x| x.text.trim()));
        events.extend(s.words(&ws, now));
        if call % 6 == 5 {
            events.extend(s.tick(now + 900));
        }
    }
    let mut source = String::new();
    let mut next = 0;
    for e in &events {
        match e {
            Event::Source { text, .. } => source.push_str(text),
            Event::Clause { clause, .. } => {
                assert_eq!(clause.id, next);
                next += 1;
                let words = clause.text.split(' ').count();
                assert!(1 <= words && words <= MAX_WORDS);
            }
        }
    }
    source.retain(|c| c != ' ');
    assert_eq!(source, spoken);
    assert!(next > 10);
}

#[test]
fn long_run_closes_at_max_words() {
    let mut s = Segmenter::new(800);
    let ws: Vec<Word> = (0..MAX_WORDS as u64 + 3).map(|i| w("x", i * 100)).collect();
    let ev = s.words(&ws, 0);
    assert_eq!(clauses(&ev).len(), 1);
}

#[test]
fn bare_punctuation_is_not_translated() {
    let mut s = Segmenter::new(800);
    let ev = s.words(&[w(".", 0)], 0);
    assert!(clauses(&ev).is_empty());
}

#[test]
fn clauses_are_numbered_and_punctuation_joins() {
    let mut s = Segmenter::new(800);
    let ev = s.words(&[w(" Well ", 0), w(",", 1), w("é", 2), w("!?", 3), w("", 4)], 0);
    let got: Vec<(u64, String)> = ev
        .iter()
        .filter_map(|e| match e {
            Event::Clause { clause, .. } => Some((clause.id, clause.text.clone())),
            _ => None,
        })
        .collect();
    assert_eq!(got, [(0, "Well,".to_string()), (1, "é!?".to_string())]);
}

#[test]
fn text_goes_to_its_lanes() {
    let specs = lane_specs(&default_languages(), &Captions::default()).unwrap();
    let (_cap, mut h) = Captioner::new(&specs, &Captions::default());
    let mut t = TextPath::new(800, "en".into(), vec!["es".into(), "fr".into()]);
    let out = t.words(&[w("Hello.", 0), w("Bye", 10)], &mut h, true, 0);
    assert_eq!(out.len(), 1);
    assert_eq!((out[0].id, out[0].text.as_str()), (0, "Hello."));
    assert_eq!(t.targets().len(), 2);
    let line = h.receive().unwrap();
    assert_eq!((line.lane, line.text.as_str(), line.new_row), (0, "Hello.", true));
    let line = h.receive().unwrap();
    assert_eq!((line.text.as_str(), line.new_row), ("Bye", true));
    let tr = |id, text: &str| Translation {
        clause_id: id,
        lang: "es".into(),
        text: text.into(),
        elapsed_ms: 1,
    };
    // The second clause goes on the row where it started; an unknown one on a new row.
    let out = t.words(&[w("now,", 20), w("then", 30)], &mut h, true, 0);
    assert_eq!(out[0].text, "Bye now,");
    let out = t.tick(&mut h, true, 800);
    assert_eq!(out[0].text, "then");
    h.discard();
    assert!(t.translated(&tr(2, "luego"), &mut h, 0));
    let line = h.receive().unwrap();
    assert_eq!((line.lane, line.text.as_str(), line.new_row), (1, "luego", false));
    assert!(t.row(77));
    assert!(t.row(0));
    // Nothing is translated without a translator.
    assert!(t.words(&[w("End.", 40)], &mut h, false, 0).is_empty());
}

#[test]
fn rows_are_remembered_for_a_while() {
    let specs = lane_specs(&default_languages(), &Captions::default()).unwrap();
    let (_cap, mut h) = Captioner::new(&specs, &Captions::default());
    let mut t = TextPath::new(800, "en".into(), vec![]);
    // Every clause but the first starts on the row of the one before it.
    for k in 0..300 {
        t.words(&[w("word,", k)], &mut h, true, 0);
        h.discard();
    }
    assert!(t.row(43));
    assert!(!t.row(44));
    assert!(!t.row(299));
}

#[test]
fn backoff_doubles_to_cap() {
    let p = Policy::default();
    let ms: Vec<u64> = (0..8).map(|n| p.backoff(n)).collect();
    assert_eq!(ms, [500, 1000, 2000, 4000, 8000, 10000, 10000, 10000]);
    assert_eq!(p.backoff(u32::MAX), p.backoff_max);
}

#[test]
fn send_queue_drops_the_oldest() {
    let mut q: SendQueue<u32> = SendQueue::new(2);
    assert!(q.send(1));
    assert!(q.send(2));
    assert!(!q.send(3));
    assert_eq!((q.queued(), q.dropped()), (2, 1));
    // Nothing is written before the worker is ready.
    assert!(matches!(q.next(false, false), Next::Wait));
    assert!(matches!(q.next(true, false), Next::Frame(2)));
    q.stop();
    assert!(!q.send(4));
    q.close(Some(9));
    assert!(matches!(q.next(true, false), Next::Frame(3)));
    assert!(matches!(q.next(true, false), Next::Frame(9)));
    assert!(matches!(q.next(true, false), Next::End));
    assert!(matches!(q.next(true, true), Next::Done));
    let mut q: SendQueue<u32> = SendQueue::new(0);
    assert!(q.send(1));
    assert!(!q.send(2));
    assert_eq!(q.queued(), 1);
}

#[test]
fn workers_are_watched() {
    let p = Policy::default();
    assert_eq!(p.watch(false, None, None, 3000, true, 9), Outcome::Alive);
    assert_eq!(
        p.watch(false, None, None, 3001, true, 9),
        Outcome::Died("no heartbeat for 3001 ms".into())
    );
    assert_eq!(
        p.watch(false, None, None, 0, false, 120_001),
        Outcome::Died("not ready after 120 s".into())
    );
    assert_eq!(
        p.watch(false, Some("gone".into()), Some("fatal".into()), 9999, false, 0),
        Outcome::Died("gone".into())
    );
    assert_eq!(
        p.watch(false, None, Some("fatal".into()), 9999, false, 0),
        Outcome::Died("fatal".into())
    );
    assert_eq!(p.watch(true, Some("gone".into()), None, 0, true, 0), Outcome::Stop);
}

#[test]
fn restarts_back_off_until_healthy() {
    let p = Policy::default();
    let mut s = Status::new();
    s.starting();
    s.spawned(42);
    assert_eq!(s.pid, Some(42));
    s.ready();
    assert_eq!(s.state, State::Ready);
    s.died(&p, "x".into(), Some(100));
    assert_eq!(s.restart(&p), 500);
    assert_eq!((s.state, s.restarts, s.pid), (State::Restarting, 1, None));
    s.starting();
    s.spawn_failed("missing".into());
    assert_eq!(s.restart(&p), 1000);
    assert_eq!(s.state, State::Failed);
    assert_eq!(s.last_error.as_deref(), Some("missing"));
    s.starting();
    s.died(&p, "y".into(), Some(60_000));
    assert_eq!(s.restart(&p), 500);
    s.stopped();
    assert_eq!(s.state, State::Stopped);
}

#[test]
fn worker_output_is_sorted() {
    let mut r = Reader::new();
    assert_eq!(r.react(Incoming::Ready), Reaction::BecomeReady);
    assert_eq!(r.react(Incoming::Ready), Reaction::Alive);
    assert_eq!(r.react(Incoming::Output), Reaction::Deliver);
    assert_eq!(r.react(Incoming::Pcm), Reaction::Ignore { log: true });
    assert_eq!(r.react(Incoming::Request), Reaction::Ignore { log: true });
    let logged: Vec<u64> = (2..=40)
        .filter(|_| r.react(Incoming::Bad) == Reaction::Ignore { log: true })
        .collect();
    assert_eq!(logged, [2, 3, 4, 5, 6, 7, 8, 9, 10, 16, 32]);
    assert_eq!(r.react(Incoming::Closed), Reaction::CloseFatal);
    assert_eq!(r.react(Incoming::Broken), Reaction::ProtocolFatal);
    assert!(shows_life(Incoming::Heartbeat) && !shows_life(Incoming::Bad));
}

#[test]
fn splits_sentences_not_abbreviations() {
    assert_eq!(
        sentences("Cold, is it, my darling? Bless your sweet face."),
        ["Cold, is it, my darling?", "Bless your sweet face."]
    );
    assert_eq!(
        sentences("Thank you, Mr. Chen. We'll ask staff."),
        ["Thank you, Mr. Chen.", "We'll ask staff."]
    );
    assert_eq!(sentences("Version 2.4 fixes it"), ["Version 2.4 fixes it"]);
    assert_eq!(
        sentences("and then we're going to"),
        ["and then we're going to"]
    );
    assert!(sentences("   ").is_empty());
    assert_eq!(sentences("¿Qué? ¡Sí! Ok."), ["¿Qué?", "¡Sí!", "Ok."]);
}

#[test]
fn sentences_know_upper_case() {
    assert_eq!(sentences("Oui. Émile. été"), ["Oui.", "Émile. été"]);
    assert_eq!(sentences("One!  two. \"Three\""), ["One!  two.", "\"Three\""]);
}

#[test]
fn decode_cap_grows_then_saturates() {
    assert_eq!(max_decoding_length(0), 16);
    assert_eq!(max_decoding_length(10), 56);
    assert_eq!(max_decoding_length(usize::MAX), 256);
    assert_eq!(decoding_length(" one two\tthree "), 28);
}

#[test]
fn requests_are_answered() {
    assert_eq!(refusal("short", true), None);
    assert_eq!(
        refusal("short", false).unwrap(),
        "no model for this language"
    );
    assert_eq!(refusal(&"é".repeat(2048), true), None);
    assert_eq!(refusal(&"é".repeat(2049), false).unwrap(), "clause too long");
    assert_eq!(expired_in_queue(5, 6), None);
    assert_eq!(
        expired_in_queue(6, 6).unwrap(),
        "deadline passed while queued"
    );
    assert!(!past_deadline(6, 6) && past_deadline(7, 6));
    assert_eq!(
        answer(Ok("hola".into()), 2_500_000, 3_000_000),
        Answer::Translated {
            text: "hola".into(),
            elapsed_ms: 2
        }
    );
    assert_eq!(
        answer(Ok("hola".into()), 4, 3),
        Answer::Failed("deadline passed".into())
    );
    assert_eq!(
        answer(Ok(String::new()), 3, 3),
        Answer::Failed("empty translation".into())
    );
    assert_eq!(
        answer(Err("why".into()), 9, 3),
        Answer::Failed("why".into())
    );
    assert_eq!(
        error_message(7, "es", "queue full"),
        "mt: clause 7 es: queue full"
    );
    assert_eq!(
        join_translations(&[" a ".to_string(), "b\n".to_string()]),
        "a b"
    );
    assert_eq!(join_translations(&[]), "");
    assert_eq!(model_dir("es", false, false), "opus-mt-en-es");
    assert_eq!(model_dir("es", false, true), "opus-mt-tc-big-en-es");
    assert_eq!(model_dir("es", true, true), "opus-mt-en-es");
}

#[test]
fn elements_follow_the_urls() {
    let outs = ["rtmp://a/b".to_string(), "udp://h:1".to_string()];
    let need = required_elements("rtp://h:1", &outs).unwrap();
    assert_eq!(need.len(), 22 + 2 + 3);
    assert_eq!(
        &need[22..],
        ["udpsrc", "rtpmp2tdepay", "flvmux", "rtmp2sink", "udpsink"]
    );
    assert!(required_elements("http://h", &outs).is_err());
    assert!(required_elements("srt://h", &["x://y".to_string()]).is_err());
    let names = ["a".to_string(), "b".to_string(), "c".to_string()];
    assert_eq!(missing_elements(&names, &[true; 3], true), None);
    assert_eq!(
        missing_elements(&names, &[false, true, false], true).unwrap(),
        "missing GStreamer elements: a, c"
    );
    assert!(missing_elements(&names, &[false; 3], false)
        .unwrap()
        .starts_with("GStreamer element avdec_aac is missing"));
}

#[test]
fn media_settings_come_from_the_configuration() {
    let m = MediaConfig::from_config(&Config::default());
    assert_eq!(m.input_url, "srt://0.0.0.0:9000?mode=listener");
    assert_eq!(m.outputs, ["srt://0.0.0.0:9001?mode=listener"]);
    assert_eq!(m.languages, default_languages());
    assert_eq!((m.srt_latency_ms, m.watchdog_ms), (120, 2000));
}

#[test]
fn input_restarts_back_off() {
    let mut c = InputControl::new();
    assert_eq!(c.build_failed(), 250);
    assert_eq!(c.build_failed(), 500);
    c.start_failed();
    assert_eq!(c.errors, 3);
    assert_eq!(c.restarted(), 1000);
    assert_eq!(c.restarted(), 2000);
    assert_eq!(c.restarted(), 2000);
    // No data yet: silence is no reason to restart.
    assert!(!c.watch(false, false, 0, 99, 10));
    assert_eq!(c.backoff_ms, 2000);
    assert!(!c.watch(false, false, 5, 15, 10));
    assert_eq!(c.backoff_ms, 250);
    assert!(c.watch(false, false, 5, 16, 10));
    assert!(c.watch(false, true, 0, 0, 10));
    assert!(c.watch(true, false, 0, 0, 10));
    assert_eq!((c.errors, c.restarts), (4, 3));
    assert!(input_live(5, 14, 10) && !input_live(5, 15, 10) && !input_live(0, 1, 10));
    assert!(input_live(15, 5, 10));
}

#[test]
fn outputs_restart_on_their_own() {
    let mut s = OutSink::new(100);
    assert_eq!(s.poll(0, false, 100), SinkStep::Build);
    s.built(false, 100);
    assert_eq!(s.poll(0, false, 599), SinkStep::Keep);
    assert_eq!(s.poll(0, false, 600), SinkStep::Build);
    s.built(true, 600);
    assert_eq!((s.errors, s.starts, s.backoff_ms), (1, 1, 1000));
    assert_eq!(s.poll(0, false, 700), SinkStep::Keep);
    assert_eq!(s.poll(0, true, 700), SinkStep::Stop);
    assert_eq!((s.retry_at, s.backoff_ms, s.errors), (Some(1700), 2000, 1));
    assert_eq!(s.poll(0, false, 1700), SinkStep::Build);
    s.built(true, 1700);
    assert_eq!(s.poll(0, false, 31_700), SinkStep::Keep);
    assert_eq!(s.backoff_ms, 500);
    assert_eq!(s.poll(2, false, 31_800), SinkStep::Stop);
    assert_eq!(s.errors, 3);
    s.stop();
    // Only a running output reports.
    assert_eq!(s.poll(5, true, 99_999), SinkStep::Keep);
    let st = s.stats("rtmp://h/app/key");
    assert_eq!(
        (st.url.as_str(), st.running, st.errors, st.starts),
        ("rtmp://h/app/***", false, 3, 2)
    );
}

#[test]
fn streams_are_told_apart() {
    assert_eq!(stream_kind("video/x-h265"), StreamKind::Video(Codec::Hevc));
    assert_eq!(stream_kind("video/x-h264"), StreamKind::Video(Codec::H264));
    assert_eq!(stream_kind("audio/mpeg"), StreamKind::Audio);
    assert_eq!(stream_kind("video/mpeg"), StreamKind::Other);
    assert_eq!(audio_parser("audio/mpeg", Some(4)), AudioParser::Aac);
    assert_eq!(audio_parser("audio/mpeg", Some(1)), AudioParser::MpegAudio);
    assert_eq!(audio_parser("audio/mpeg", None), AudioParser::MpegAudio);
    assert_eq!(audio_parser("audio/x-eac3", None), AudioParser::Ac3);
    assert_eq!(audio_parser("audio/x-opus", Some(4)), AudioParser::Plain);
    assert!(rtmp_carries("audio/mpeg") && !rtmp_carries("video/x-h265"));
}

#[test]
fn scripted_worker_answers() {
    let mut s = Script::new(Some(4), None);
    let pcm = Input::Pcm {
        start_ms: 100,
        samples: 1600,
    };
    let word = |t: &str| {
        Step::Words(Word {
            text: t.into(),
            start_ms: 100,
            end_ms: 200,
        })
    };
    assert_eq!(s.step(&pcm), word("alpha"));
    assert_eq!(s.step(&pcm), word("bravo"));
    let tr = Input::Translate {
        clause: Clause {
            id: 3,
            text: "hi".into(),
            start_ms: 0,
            end_ms: 1,
        },
        langs: vec!["es".into()],
    };
    match s.step(&tr) {
        Step::Translated(list) => {
            assert_eq!((list[0].clause_id, list[0].text.as_str()), (3, "[es] hi"));
        }
        other => panic!("unexpected {other:?}"),
    }
    assert_eq!(s.step(&Input::Shutdown), Step::Exit);
    assert_eq!(s.step(&pcm), Step::Crash);
    let mut s = Script::new(None, Some(0));
    assert_eq!(s.step(&Input::Other), Step::Hang);
}

fn shown(e: &Element) -> String {
    let mut s = match &e.maker {
        Maker::Factory(f) => f.clone(),
        Maker::Source(u) => format!("<{u}"),
        Maker::Sink(u) => format!(">{u}"),
    };
    for x in &e.settings {
        s.push_str(&format!(" {}{}={}", x.name, if x.optional { "?" } else { "" }, x.value));
    }
    s
}

fn linked(g: &Graph) -> Vec<(usize, usize, &str)> {
    g.links.iter().map(|l| (l.from, l.to, l.pad.as_str())).collect()
}

#[test]
fn output_pipeline() {
    let g = output_plan(Codec::Hevc);
    let names: Vec<&str> = g.elements.iter().map(|e| e.name.as_str()).collect();
    assert_eq!(names, ["vsrc", "asrc", "vparse", "ccinsert", "mux", "aq", "tsout"]);
    assert_eq!(
        shown(&g.elements[0]),
        "appsrc is-live=true format=time max-bytes=33554432 leaky-type=downstream block=false max-time=2000000000"
    );
    assert_eq!(shown(&g.elements[2]), "h265parse config-interval=-1");
    assert_eq!(shown(&g.elements[3]), "h265ccinserter remove-caption-meta=true");
    assert_eq!(
        linked(&g),
        [(0, 2, ""), (2, 3, ""), (3, 4, "sink_256"), (1, 5, ""), (5, 4, "sink_257"), (4, 6, "")]
    );
    assert_eq!(shown(&output_plan(Codec::H264).elements[2]), "h264parse config-interval=-1");
}

#[test]
fn sink_pipelines() {
    let g = sink_plan("srt://h:9000?mode=caller", 120).unwrap();
    assert_eq!(
        shown(&g.elements[1]),
        ">srt://h:9000?mode=caller&latency=120 sync?=false async?=false wait-for-connection?=false"
    );
    let g = sink_plan("udp://h:9000?x=1", 120).unwrap();
    assert_eq!(g.elements[1].maker, Maker::Sink("udp://h:9000".to_string()));
    assert_eq!(linked(&g), [(0, 1, "")]);
    let g = sink_plan("rtmp://h/live/key", 120).unwrap();
    assert_eq!(g.elements.len(), 8);
    assert_eq!(shown(&g.elements[7]), "rtmp2sink location=rtmp://h/live/key sync=false async=false");
    assert_eq!(linked(&g)[3], (3, 6, "video"));
    assert_eq!(linked(&g)[6], (5, 6, "audio"));
    assert_eq!(sink_plan("file:///x", 120).unwrap_err(), "unsupported output URL file:///x");
}

#[test]
fn input_pipelines() {
    let g = input_plan("srt://h:9000", 80).unwrap();
    assert_eq!(shown(&g.elements[2]), "tsdemux ignore-pcr=true");
    assert_eq!(shown(&g.elements[3]), "<srt://h:9000?latency=80");
    assert_eq!(linked(&g), [(3, 2, "")]);
    let g = input_plan("rtp://h:9000", 80).unwrap();
    assert_eq!(
        shown(&g.elements[3]),
        "<udp://h:9000 buffer-size=8388608 caps=application/x-rtp,media=(string)video,clock-rate=(int)90000,encoding-name=(string)MP2T"
    );
    assert_eq!(shown(&g.elements[4]), "rtpmp2tdepay");
    assert_eq!(linked(&g), [(3, 4, ""), (4, 2, "")]);
    assert_eq!(input_plan("rtmp://h", 80).unwrap_err(), "unsupported input URL rtmp://h");
}

#[test]
fn audio_pipelines() {
    let aac = audio_plan("audio/mpeg", Some(4), 0, 0).unwrap();
    let g = branch_plan(aac).unwrap();
    assert_eq!(g.elements.iter().map(shown).collect::<Vec<_>>(), ["aacparse", "tee"]);
    assert_eq!(linked(&g), [(0, 1, "")]);
    let ac3 = audio_plan("audio/x-ac3", None, 0, 0).unwrap();
    assert_eq!(branch_plan(ac3).unwrap().elements.iter().map(shown).collect::<Vec<_>>(), ["ac3parse"]);
    assert!(branch_plan(audio_plan("audio/x-opus", None, 0, 0).unwrap()).is_none());
    let tap = tap_plan();
    assert_eq!(tap.elements.len(), 5);
    assert_eq!(shown(&tap.elements[1]), "avdec_aac");
    assert_eq!(linked(&tap), [(0, 1, ""), (1, 2, ""), (2, 3, ""), (3, 4, "")]);
}

#[test]
fn caption_pipelines() {
    let cc3 = TrackCfg::Cea608 { field: 1, mode: "roll-up2".to_string() };
    let service = TrackCfg::Cea708 {
        service: 2,
        cea608_channel: 1,
        mode: "roll-up".to_string(),
        roll_up_rows: 3,
    };
    let one = caption_plan(&[cc3.clone()], (30000, 1001)).unwrap();
    let caps = "capsfilter caps=closedcaption/x-cea-708,format=(string)cc_data,framerate=(fraction)30000/1001";
    assert_eq!(
        one.graph.elements.iter().map(shown).collect::<Vec<_>>(),
        [
            "appsink sync=false async=false max-buffers=0",
            "tttocea608 mode=roll-up2",
            "capssetter caps=closedcaption/x-cea-608,field=(int)1",
            "ccconverter",
            caps,
        ]
    );
    assert_eq!(linked(&one.graph), [(1, 2, ""), (2, 3, ""), (3, 4, ""), (4, 0, "")]);
    assert_eq!((one.feeds, one.ends), (vec![1], vec![4]));

    let two = caption_plan(&[service, cc3], (30000, 1001)).unwrap();
    assert_eq!(two.graph.elements.len(), 11);
    assert_eq!(shown(&two.graph.elements[1]), "cea708mux");
    assert_eq!(
        shown(&two.graph.elements[4]),
        "tttocea708 mode=roll-up service-number=2 cea608-channel=1 roll-up-rows=3"
    );
    assert_eq!((two.feeds.clone(), two.ends.clone()), (vec![3, 6], vec![5, 10]));
    let links = linked(&two.graph);
    assert_eq!(links[..5], [(1, 2, ""), (2, 0, ""), (3, 4, ""), (4, 5, ""), (5, 1, "sink_%u")]);
    assert_eq!(links[9], (10, 1, "sink_%u"));

    assert_eq!(caption_plan(&[], (30, 1)).unwrap_err(), "no caption tracks");
    let t = TrackCfg::Cea608 { field: 0, mode: "pop-on".to_string() };
    assert_eq!(caption_plan(&[t], (0, -1)).unwrap_err(), "bad frame rate 0/-1");
    assert_eq!(text_caps(), "text/x-raw,format=(string)utf8");
    assert_eq!(frame_rate(Some((25, 1))), ((25, 1), true));
    assert_eq!(frame_rate(Some((0, 1))), ((30, 1), false));
    assert_eq!(frame_rate(None), ((30, 1), false));
}

/// What the pipelines are made of is what was checked.
#[test]
fn checked_elements_suffice() {
    let outputs = vec!["rtmp://h/live".to_string(), "srt://h:1".to_string()];
    let names = required_elements("rtp://h:9000", &outputs).unwrap();
    let specs = lane_specs(&default_languages(), &Captions::default()).unwrap();
    let tracks: Vec<TrackCfg> = specs.into_iter().map(|s| s.track).collect();
    let mut graphs = vec![
        output_plan(Codec::H264),
        input_plan("rtp://h:9000", 80).unwrap(),
        caption_plan(&tracks, (25, 1)).unwrap().graph,
        tap_plan(),
    ];
    graphs.extend(outputs.iter().map(|u| sink_plan(u, 80).unwrap()));
    for e in graphs.iter().flat_map(|g| &g.elements) {
        if let Maker::Factory(f) = &e.maker {
            assert!(f == "avdec_aac" || names.contains(f), "{f}");
        }
    }
}
