use multi::chars::to_chars;
use multi::clock::{Clock, MAX_ANCHORS};
use multi::config::{default_languages, CaptionMode, Config, Output, Single};
use multi::ipc::{
    read_frame, write_frame, write_message, write_pcm, Frame, FrameError, KIND_JSON, KIND_PCM,
    MAX_FRAME,
};
use multi::url::{input_kind, output_kind, redact, srt_uri, udp_uri, InputKind, OutputKind};
use multi::words::{group_words, parse_chunk, Committer, VadEvent, VadGate};
use multi::worker::{Heartbeat, Tick, Ticker, HEARTBEAT_INTERVAL_MS};

#[test]
fn kinds() {
    assert_eq!(input_kind("srt://1.2.3.4:9000").ok(), Some(InputKind::Srt));
    assert_eq!(
        input_kind("udp://239.1.1.1:5000").ok(),
        Some(InputKind::Udp)
    );
    assert_eq!(input_kind("rtp://0.0.0.0:5004").ok(), Some(InputKind::Rtp));
    assert!(input_kind("http://x").is_err());
    assert_eq!(output_kind("rtmps://a/b/c").ok(), Some(OutputKind::Rtmp));
    assert!(output_kind("rtp://a:1").is_err());
}

#[test]
fn unsupported_urls_are_named_without_secrets() {
    assert_eq!(
        input_kind("http://h/x?key=s").unwrap_err(),
        "unsupported input URL http://h/x?key=***"
    );
    assert_eq!(
        output_kind("ftp://h?streamid=s&a=b").unwrap_err(),
        "unsupported output URL ftp://h?streamid=***&a=b"
    );
}

#[test]
fn srt_latency_added_once() {
    assert_eq!(srt_uri("srt://h:1", 120), "srt://h:1?latency=120");
    assert_eq!(
        srt_uri("srt://h:1?mode=listener", 80),
        "srt://h:1?mode=listener&latency=80"
    );
    assert_eq!(
        srt_uri("srt://h:1?latency=500&mode=caller", 80),
        "srt://h:1?latency=500&mode=caller"
    );
}

#[test]
fn a_second_latency_changes_nothing() {
    let once = srt_uri("srt://h:1?mode=listener", 80);
    assert_eq!(srt_uri(&once, 500), once);
}

#[test]
fn udp_query_dropped() {
    assert_eq!(
        udp_uri("udp://127.0.0.1:9?pkt_size=1316"),
        "udp://127.0.0.1:9"
    );
    assert_eq!(udp_uri("rtp://239.0.0.1:5004"), "udp://239.0.0.1:5004");
}

#[test]
fn secrets_redacted() {
    assert_eq!(
        redact("rtmp://a.rtmp.youtube.com/live2/abcd-efgh"),
        "rtmp://a.rtmp.youtube.com/live2/***"
    );
    assert_eq!(redact("rtmp://host/app"), "rtmp://host/app");
    assert_eq!(
        redact("srt://h:1?mode=caller&passphrase=secret123&latency=80"),
        "srt://h:1?mode=caller&passphrase=***&latency=80"
    );
}

fn single(x: f32) -> Single {
    Single {
        bits: x.to_bits(),
        shown: x.to_string(),
    }
}

fn issue_paths(c: &Config) -> Vec<String> {
    c.validate().into_iter().map(|i| i.path).collect()
}

#[test]
fn defaults_are_valid() {
    assert_eq!(Config::default().validate(), Vec::new());
    assert_eq!(Config::default().vad.threshold, single(0.5));
}

#[test]
fn defaults_match_prd() {
    let c = Config::default();
    assert_eq!(c.asr.chunk_ms, 560);
    assert_eq!(c.translate.max_wait_ms, 800);
    assert_eq!(c.web.port, 8480);
    assert_eq!(c.srt.latency_ms, 120);
    assert_eq!(c.degrade.max_lag_ms, 5000);
    assert_eq!(c.captions.mode, CaptionMode::RollUp);
}

#[test]
fn out_of_range_values_are_reported_by_path() {
    let mut c = Config::default();
    c.captions.rows = 9;
    c.vad.threshold = single(2.0);
    let paths = issue_paths(&c);
    assert!(paths.contains(&"captions.rows".to_string()));
    assert!(paths.contains(&"vad.threshold".to_string()));
}

#[test]
fn thresholds_are_compared_as_numbers() {
    for x in [0.1f32, 0.5, 0.9, f32::NAN] {
        let mut c = Config::default();
        c.vad.threshold = single(x);
        assert_eq!(c.validate(), Vec::new(), "{x}");
    }
    for x in [
        0.0f32,
        -0.0,
        -0.5,
        0.09999999,
        0.90000004,
        f32::INFINITY,
        f32::NEG_INFINITY,
    ] {
        let mut c = Config::default();
        c.vad.threshold = single(x);
        let issues = c.validate();
        assert_eq!(issues.len(), 1, "{x}");
        assert_eq!(
            issues[0].message,
            format!("must be between 0.1 and 0.9 (is {x})")
        );
    }
}

#[test]
fn language_rules() {
    let mut c = Config::default();
    c.languages[1].source = true;
    c.languages[2].cea708_service = Some(1);
    c.languages[3].cea708_service = None;
    let paths = issue_paths(&c);
    assert!(paths.contains(&"languages".to_string()));
    assert!(paths.contains(&"languages[2].cea708_service".to_string()));
    assert!(paths.contains(&"languages[3].cc608".to_string()));
}

#[test]
fn language_messages() {
    let mut c = Config::default();
    c.languages[1].code = "EN".into();
    c.languages[2].code = "en".into();
    c.languages[3].cea708_service = Some(7);
    let mut other = default_languages().remove(0);
    other.code = "it".into();
    other.source = false;
    other.cea708_service = None;
    c.languages.push(other);
    let got: Vec<(String, String)> = c.validate().into_iter().map(|i| (i.path, i.message)).collect();
    let want = [
        (
            "languages[1].code",
            "use a two-letter lowercase ISO 639-1 code, e.g. \"en\"",
        ),
        ("languages[2].code", "language listed twice"),
        ("languages[3].cea708_service", "708 service must be 1–6"),
        ("languages[4].cc608", "channel already used by another language"),
    ];
    let want: Vec<(String, String)> = want.iter().map(|(a, b)| (a.to_string(), b.to_string())).collect();
    assert_eq!(got, want);
    c.languages.clear();
    assert_eq!(c.validate()[0].message, "at least one language is required");
}

#[test]
fn range_and_order_messages() {
    let mut c = Config::default();
    c.captions.offset_ms = -6000;
    c.asr.model = "  ".into();
    c.web.port = 0;
    let again = c.degrade.order[1];
    c.degrade.order.push(again);
    c.outputs.clear();
    let got: Vec<(String, String)> = c.validate().into_iter().map(|i| (i.path, i.message)).collect();
    let want = [
        ("outputs", "at least one output is required"),
        ("captions.offset_ms", "must be between -5000 and 5000 (is -6000)"),
        ("asr.model", "a model name is required"),
        ("web.port", "port must be between 1 and 65535"),
        ("degrade.order", "each step may appear only once"),
    ];
    let want: Vec<(String, String)> = want.iter().map(|(a, b)| (a.to_string(), b.to_string())).collect();
    assert_eq!(got, want);
}

#[test]
fn bad_urls_are_reported() {
    let mut c = Config::default();
    c.input.url = "http://x".into();
    c.outputs = vec![Output {
        url: "rtmp://".into(),
    }];
    let paths = issue_paths(&c);
    assert!(paths.contains(&"input.url".to_string()));
    assert!(paths.contains(&"outputs[0].url".to_string()));
    assert_eq!(
        c.validate()[0].message,
        "expected a URL starting with srt://, udp://, rtp://"
    );
}

#[test]
fn wide_lines_rejected_when_608_in_use() {
    let mut c = Config::default();
    c.captions.max_chars_per_line = 40;
    assert!(issue_paths(&c).contains(&"captions.max_chars_per_line".to_string()));
    for l in &mut c.languages {
        l.cc608 = None;
    }
    assert_eq!(c.validate(), Vec::new());
}

#[test]
fn messages_round_trip() {
    for json in [
        br#"{"type":"ready","worker":"asr","version":"0.1.0"}"#.to_vec(),
        br#"{"type":"heartbeat","seq":7}"#.to_vec(),
        br#"{"type":"words","words":[{"text":"hello","start_ms":10,"end_ms":400}]}"#.to_vec(),
        br#"{"type":"translate","clause":{"id":3,"text":"hello there","start_ms":0,"end_ms":900},"langs":["es","fr"]}"#.to_vec(),
        br#"{"type":"translated","translation":{"clause_id":3,"lang":"es","text":"hola","elapsed_ms":12}}"#.to_vec(),
        br#"{"type":"shutdown"}"#.to_vec(),
        br#"{"type":"error","message":"x"}"#.to_vec(),
        Vec::new(),
    ] {
        let mut buf = Vec::new();
        write_message(&mut buf, &json).unwrap();
        let n = buf.len();
        assert_eq!(read_frame(&buf), Ok((Frame::Message(json), n)));
    }
}

#[test]
fn pcm_round_trip() {
    let mut buf = Vec::new();
    write_pcm(&mut buf, 1234, &[0, -1, i16::MAX, i16::MIN]).unwrap();
    let (frame, n) = read_frame(&buf).unwrap();
    assert_eq!(n, buf.len());
    assert_eq!(
        frame,
        Frame::Pcm {
            start_ms: 1234,
            samples: vec![0, -1, i16::MAX, i16::MIN]
        }
    );
}

#[test]
fn frame_bytes() {
    let mut buf = vec![9];
    write_pcm(&mut buf, 0x0102, &[-2]).unwrap();
    assert_eq!(buf, [9, 11, 0, 0, 0, KIND_PCM, 2, 1, 0, 0, 0, 0, 0, 0, 0xFE, 0xFF]);
}

#[test]
fn several_frames_in_sequence() {
    let mut buf = Vec::new();
    let heartbeat = br#"{"type":"heartbeat","seq":1}"#;
    write_message(&mut buf, heartbeat).unwrap();
    write_pcm(&mut buf, 0, &[5]).unwrap();
    let (first, n) = read_frame(&buf).unwrap();
    assert_eq!(first, Frame::Message(heartbeat.to_vec()));
    let (second, m) = read_frame(&buf[n..]).unwrap();
    assert!(matches!(second, Frame::Pcm { .. }));
    assert_eq!(read_frame(&buf[n + m..]), Err(FrameError::Closed));
}

#[test]
fn hostile_input_is_rejected_without_panicking() {
    let cases: Vec<(Vec<u8>, FrameError)> = vec![
        (vec![0, 0, 0, 0], FrameError::BadLength(0)),
        (vec![0xFF, 0xFF, 0xFF, 0x7F, 1], FrameError::BadLength(0x7FFF_FFFF)),
        (vec![2, 0, 0, 0, 9, 0], FrameError::BadKind(9)),
        (vec![4, 0, 0, 0, KIND_PCM, 1, 2, 3], FrameError::BadPcm),
        (
            vec![11, 0, 0, 0, KIND_PCM, 0, 0, 0, 0, 0, 0, 0, 0, 1],
            FrameError::Truncated,
        ),
        (
            vec![10, 0, 0, 0, KIND_PCM, 0, 0, 0, 0, 0, 0, 0, 0, 1],
            FrameError::BadPcm,
        ),
        (vec![9, 0, 0, 0, KIND_JSON], FrameError::Truncated),
        (vec![1, 2, 3], FrameError::Closed),
    ];
    for (bytes, want) in cases {
        assert_eq!(read_frame(&bytes), Err(want));
    }
}

#[test]
fn oversized_write_is_refused() {
    let samples = vec![0i16; MAX_FRAME];
    let mut out = Vec::new();
    assert!(matches!(
        write_pcm(&mut out, 0, &samples),
        Err(FrameError::BadLength(_))
    ));
    assert!(out.is_empty());
    assert!(write_frame(&mut out, 9, &vec![0; MAX_FRAME - 1]).is_ok());
    assert_eq!(
        write_frame(&mut out, 9, &vec![0; MAX_FRAME]),
        Err(FrameError::BadLength(MAX_FRAME + 1))
    );
}

#[test]
fn busy_marks_stall_only_when_old() {
    let mut hb = Heartbeat::default();
    assert!(!hb.stalled(0, 100));
    let mark = hb.busy(100);
    assert!(hb.stalled(1, 105));
    assert!(!hb.stalled(10_000, 105));
    hb.done(mark);
    assert!(!hb.stalled(0, 105));
}

#[test]
fn heartbeats_are_withheld_while_stalled() {
    let mut hb = Heartbeat::default();
    let mut t = Ticker::new(1000);
    assert_eq!(t.tick(&hb, 200, 1000), Tick::Send(0));
    assert_eq!(t.tick(&hb, 200, 1050), Tick::Sleep);
    let a = hb.busy(1100);
    let b = hb.busy(1150);
    assert_ne!(a, b);
    assert_eq!(t.tick(&hb, 200, 1000 + HEARTBEAT_INTERVAL_MS), Tick::Warn);
    assert_eq!(t.tick(&hb, 200, 2000), Tick::Skip);
    hb.done(a);
    hb.done(b);
    assert_eq!(t.tick(&hb, 200, 2500), Tick::Send(1));
    hb.pause();
    assert_eq!(t.tick(&hb, 200, 3000), Tick::Skip);
    hb.stop();
    assert_eq!(t.tick(&hb, 200, 3000), Tick::Stop);
}

/// The sample nearest to a time in seconds.
fn at(c: &Clock, t: f64) -> u64 {
    c.at((t.max(0.0) * 16_000.0).round() as u64)
}

#[test]
fn contiguous_frames_share_one_anchor() {
    let mut c = Clock::default();
    c.frame(5_000, 1600);
    c.frame(5_100, 1600);
    c.frame(5_200, 1600);
    assert_eq!(c.anchor_count(), 1);
    assert_eq!(at(&c, 0.0), 5_000);
    assert_eq!(at(&c, 0.25), 5_250);
}

#[test]
fn gaps_are_followed() {
    let mut c = Clock::default();
    c.frame(0, 1600); // 0..100 ms
    c.frame(10_000, 1600); // jump: 10 s gap upstream
    assert_eq!(at(&c, 0.05), 50);
    assert_eq!(at(&c, 0.15), 10_050);
}

#[test]
fn anchors_are_bounded() {
    let mut c = Clock::default();
    for i in 0..5_000u64 {
        c.frame(i * 1_000, 160); // 10 ms of audio per second: always a jump
    }
    assert_eq!(c.anchor_count(), MAX_ANCHORS);
    let first = 5_000 - MAX_ANCHORS as u64;
    assert_eq!(at(&c, first as f64 * 0.01), first * 1_000);
}

#[test]
fn times_before_the_oldest_anchor_count_back() {
    let c = Clock::default();
    assert_eq!(c.at(160), 10);
    let mut c = Clock::default();
    for i in 0..2_000u64 {
        c.frame(1_000 + i * 1_000, 160);
    }
    // The oldest anchor kept is at sample 976 * 160, 977 s.
    assert_eq!(c.at(976 * 160 - 160), 977_000 - 10);
    assert_eq!(c.at(0), 977_000 - 9_760);
}

fn toks(v: &[&str]) -> Vec<String> {
    v.iter().map(|s| s.to_string()).collect()
}

#[test]
fn groups_pieces_into_words_and_skips_specials() {
    let t = toks(&["<en>", "\u{2581}hel", "lo", "\u{2581}", "wor", "ld", ","]);
    let w = group_words(&t);
    let text: Vec<&str> = w.iter().map(|w| w.text.as_str()).collect();
    assert_eq!(text, ["hello", "world,"]);
    let ts = [0.0f32, 0.1, 0.2, 0.3, 0.4, 0.5, 0.6];
    assert!((f64::from(ts[w[0].first]) - 0.1).abs() < 1e-6);
    assert!((f64::from(ts[w[1].last]) + 0.08 - 0.68).abs() < 1e-6);
}

#[test]
fn missing_timestamps_do_not_panic() {
    let w = group_words(&toks(&["\u{2581}a", "\u{2581}b"]));
    assert_eq!(w.len(), 2);
}

#[test]
fn words_are_committed_once() {
    let mut c = Committer::new(560, 400);
    // The last word may still grow.
    let r = c.step(1, &toks(&["one", "two"]), false);
    assert_eq!((r.suffix, r.from, r.to), (None, 0, 1));
    // Nothing new in 560 ms of decoded audio: the last word is final.
    let r = c.step(1, &toks(&["one", "two"]), false);
    assert_eq!((r.suffix, r.from, r.to), (None, 1, 2));
    // It gains punctuation after all.
    let r = c.step(1, &toks(&["one", "two,", "three"]), false);
    assert_eq!((r.suffix, r.from, r.to), (Some(",".into()), 2, 2));
    let r = c.step(0, &toks(&["one", "two,", "three"]), true);
    assert_eq!((r.suffix, r.from, r.to), (None, 2, 3));
}

#[test]
fn speech_starts_with_what_came_before() {
    let mut g: VadGate<i32> = VadGate::new(3);
    assert_eq!(g.feed(&[1, 2], false), VadEvent::Same);
    assert_eq!(g.feed(&[3, 4], true), VadEvent::Start(vec![2, 3, 4]));
    assert_eq!(g.feed(&[5], true), VadEvent::Same);
    assert_eq!(g.feed(&[6], false), VadEvent::End);
    assert_eq!(g.feed(&[7], true), VadEvent::Start(vec![7]));
    g.reset();
    assert_eq!(g.feed(&[8], true), VadEvent::Start(vec![8]));
}

#[test]
fn chunk_sizes() {
    assert_eq!(parse_chunk("560"), Ok(560));
    assert_eq!(parse_chunk("+80"), Ok(80));
    for bad in ["561", "", "-80", "80.0", "99999999999999999999"] {
        assert_eq!(
            parse_chunk(bad).unwrap_err(),
            "one of 80, 160, 320, 560, 1120 (must match the model export)"
        );
    }
}

#[test]
fn texts_are_characters() {
    assert_eq!(to_chars("aé😀"), ['a', 'é', '😀']);
}
