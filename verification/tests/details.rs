use multi::annexb::{insert_cc_sei, split_nals, VideoCodec};
use multi::audio::TapClock;
use multi::backoff::double_wait;
use multi::cc::{fixture_triples, h264_sei_nal, Channel};
use multi::cea608::{pac, Cc608Encoder, Mode608};
use multi::cea708::Cc708Encoder;
use multi::charset::{map_608, map_708, Cell};
use multi::clock::Clock;
use multi::csv::{
    frame_header, write_arrival, write_rows, write_written, written_header, Written,
};
use multi::epochs::{wall_90k, Rebase};
use multi::ipc::{decode_frame, frame_length, Frame as IpcFrame, FrameError, KIND_PCM, MAX_FRAME};
use multi::matching::{first_match, required, target_words, tokens, without_stop_words};
use multi::media::{audio_plan, AudioParser, AudioPlan};
use multi::mux::{CcMux, FrameRate};
use multi::nal::Skip;
use multi::passthrough::{
    caption, default_in_opts, due_time, is_later, map_streams, next_retry_ms, pages_resident,
    parse_opts, rss_kib, take_packet, watch_codec, Arrival, InputStep, OutputStep, OutputSync,
    StreamKind, STALE_NS,
};
use multi::probe::Arrivals;
use multi::reorder::Meta;
use multi::report::{load_rows, skip_warm_up, window_counts, Row};
use multi::script::{worker_name, Mode};
use multi::transcript::{raw_segments, raw_words};
use multi::translate::model_names;
use multi::ts::{parse_pts, Frame};

fn strings(list: &[&str]) -> Vec<String> {
    list.iter().map(|s| s.to_string()).collect()
}

#[test]
fn frame_logs_are_read_back() {
    let frames = [
        Frame { wall_ns: 5_000_000_000, pts: Some(126_000), seq: 1, tail_hash: 0xDEAD_BEEF },
        Frame { wall_ns: -7, pts: None, seq: 2, tail_hash: 0 },
    ];
    let mut text = frame_header();
    text.push('\n');
    write_rows(&mut text, &frames);
    assert_eq!(
        text,
        "wallclock_ns,pts_90k,frame_seq,tail_hash\n5000000000,126000,1,00000000deadbeef\n-7,,2,0000000000000000\n"
    );
    let (rows, bad) = load_rows(&text);
    assert_eq!(bad, 0);
    assert_eq!(
        rows,
        [
            Row { wall: 5_000_000_000, pts: Some(126_000), seq: 1, hash: 0xDEAD_BEEF },
            Row { wall: -7, pts: None, seq: 2, hash: 0 },
        ]
    );
}

#[test]
fn bad_rows_are_counted() {
    let (rows, bad) = load_rows("1,2,3\nx,2,3\n1,2\n4,y,6,zz\n7,+8,9,FF\n\n");
    assert_eq!(bad, 3);
    assert_eq!(
        rows,
        [
            Row { wall: 1, pts: Some(2), seq: 3, hash: 0 },
            Row { wall: 4, pts: None, seq: 6, hash: 0 },
            Row { wall: 7, pts: Some(8), seq: 9, hash: 0xFF },
        ]
    );
}

#[test]
fn written_packets_are_logged() {
    let meta = Meta { session: 2, frame: Some(41), in_pts: -5, read_ns: 1_000_000 };
    let mut text = written_header();
    text.push('\n');
    write_written(&mut text, Written { meta, out_pts: 90, key: true, bytes: 1316, write_ns: 3_500_999 });
    let late = Meta { session: 2, frame: None, in_pts: 0, read_ns: 9 };
    write_written(&mut text, Written { meta: late, out_pts: -1, key: false, bytes: 0, write_ns: 4 });
    assert_eq!(
        text,
        "session,frame,in_pts,out_pts,key,bytes,read_ns,write_ns,delay_us\n\
         2,41,-5,90,1,1316,1000000,3500999,2500\n2,,0,-1,0,0,9,4,0\n"
    );
}

#[test]
fn arrival_logs_are_joined() {
    let mut a = String::from("wall_ns,pts\n");
    write_arrival(&mut a, 1000, 90_000);
    write_arrival(&mut a, 2000, 93_000);
    write_arrival(&mut a, 2500, 90_000);
    write_arrival(&mut a, 3000, 96_000);
    assert_eq!(a, "wall_ns,pts\n1000,90000\n2000,93000\n2500,90000\n3000,96000\n");
    let first = Arrivals::load(&a);
    assert_eq!(first.count(), 3);
    let second = Arrivals::load("wall_ns,pts\n5000,96000\n900,90000\nbad\n7,1\n");
    assert_eq!(second.count(), 3);
    assert_eq!(first.join(&second), [(90_000, -100), (96_000, 2000)]);
    assert_eq!(Arrivals::load("").count(), 0);
}

#[test]
fn warm_up_and_window() {
    let rows: Vec<Row> =
        (0..6).map(|k| Row { wall: 100 + 10 * k, pts: None, seq: k as u64, hash: 0 }).collect();
    let pairs = vec![(0, 0), (2, 1), (4, 2), (4, 3)];
    assert_eq!(skip_warm_up(&rows, &pairs, 0), pairs);
    assert_eq!(skip_warm_up(&rows, &pairs, 20), [(2, 1), (4, 2), (4, 3)]);
    assert_eq!(skip_warm_up(&rows, &pairs, 21), [(4, 2), (4, 3)]);
    // Row 3 lies between the matched rows 2 and 4; rows 0, 1 and 5 outside them.
    assert_eq!(window_counts(&rows, &vec![2, 4, 4]), (1, 2));
}

#[test]
fn words_are_lowered_and_trimmed() {
    assert_eq!(tokens("Don't STOP -- Été!"), ["dont", "stop", "été"]);
    assert_eq!(tokens(" ' "), Vec::<String>::new());
    assert_eq!(without_stop_words(tokens("The cat IS out")), ["cat"]);
}

#[test]
fn targets_borrow_from_the_past() {
    let list = strings(&["red green blue", "yes", "the and"]);
    assert_eq!(target_words(&list, 0, 2), ["green", "blue"]);
    assert_eq!(target_words(&list, 1, 3), ["green", "blue", "yes"]);
    // Wraps to the end of the list.
    assert_eq!(target_words(&strings(&["yes", "red green"]), 0, 3), ["red", "green", "yes"]);
    // Without content words anywhere: all words.
    assert_eq!(target_words(&strings(&["the and"]), 0, 3), ["the", "and"]);
}

#[test]
fn first_match_takes_the_earliest_cue() {
    let target = strings(&["dinner", "turnips", "carrots"]);
    let cues = vec![
        strings(&["dinner", "turnips"]),
        strings(&["turnips", "carrots"]),
        strings(&["dinner", "turnips", "carrots"]),
    ];
    assert_eq!(first_match(&target, &cues, 0, 3), Some((1, 2)));
    assert_eq!(first_match(&target, &cues, 2, 3), Some((2, 3)));
    assert_eq!(first_match(&target, &cues, 0, 1), None);
    assert_eq!([required(0), required(1), required(2), required(3)], [0, 1, 2, 2]);
}

#[test]
fn transcripts() {
    let segs = raw_segments("0.5\t 2.0 \tHELLO\tTHERE\nheader\n3\t4\n");
    assert_eq!(segs.len(), 2);
    assert_eq!((segs[0].start.as_str(), segs[0].end.as_str()), ("0.5", "2.0"));
    assert_eq!(segs[0].text, "HELLO\tTHERE");
    assert_eq!((segs[1].start.as_str(), segs[1].text.as_str()), ("3", ""));
    let words = raw_words("word\tstart\tend\nhi\t1.0\t1.5\textra\nshort\t2\n");
    assert_eq!(words.len(), 2);
    assert_eq!((words[1].start.as_str(), words[1].end.as_str()), ("1.0", "1.5"));
}

#[test]
fn captions_are_inserted_before_each_picture() {
    let stream = [
        0, 0, 0, 1, 0x67, 1, 2, 0, 0, 1, 0x65, 0x88, 0, 0, 1, 0x65, 0x08, 0, 0, 1, 0x41, 0x9A,
    ];
    let mut asked = Vec::new();
    let (out, pictures) = insert_cc_sei(&stream, VideoCodec::H264, |k| {
        asked.push(k);
        fixture_triples(k)
    });
    assert_eq!(pictures, 2);
    assert_eq!(asked, [0, 1]);
    let first = h264_sei_nal(&fixture_triples(0));
    let second = h264_sei_nal(&fixture_triples(1));
    assert_eq!(
        split_nals(&out),
        [&[0x67, 1, 2][..], &first, &[0x65, 0x88], &[0x65, 0x08], &second, &[0x41, 0x9A]]
    );
}

#[test]
fn passthrough_captions() {
    let au = [0, 0, 0, 1, 0x67, 1, 2, 0, 0, 0, 1, 0x65, 0x88];
    let sei = h264_sei_nal(&fixture_triples(7));
    let mut want = au[..7].to_vec();
    want.extend([0, 0, 0, 1]);
    want.extend(&sei);
    want.extend(&au[7..]);
    assert_eq!(caption(&au, VideoCodec::H264, 7), Ok(want));
    assert_eq!(caption(&au[..7], VideoCodec::H264, 7), Err(Skip::NoVcl));
    assert_eq!(caption(&[1, 2, 3], VideoCodec::H264, 7), Err(Skip::NotAnnexB));
}

fn stripped(e: &mut Cc608Encoder) -> Vec<[u8; 2]> {
    std::iter::from_fn(|| e.next_pair()).map(|p| [p[0] & 0x7F, p[1] & 0x7F]).collect()
}

#[test]
fn roll_up_settings() {
    let mut e = Cc608Encoder::with_mode(Channel::Cc1, Mode608::RollUp(2));
    e.set_base_row(10);
    e.push_text("A");
    assert_eq!(stripped(&mut e)[4], pac(Channel::Cc1, 10, 0));
    e.set_base_row(1);
    e.push_text("A");
    assert_eq!(stripped(&mut e)[4], pac(Channel::Cc1, 4, 0));
    e.backspace();
    e.delete_to_end_of_row();
    e.clear();
    assert_eq!(
        stripped(&mut e),
        [[0x14, 0x21], [0x14, 0x21], [0x14, 0x24], [0x14, 0x24], [0x14, 0x2C], [0x14, 0x2C]]
    );
    e.set_mode(Mode608::RollUp(9));
    assert_eq!(e.mode(), Mode608::RollUp(4));
}

#[test]
fn pop_on_settings() {
    let shown = |rows: u8| {
        let mut e = Cc608Encoder::with_mode(Channel::Cc1, Mode608::PopOn);
        e.set_popon_rows(rows);
        e.push_text("ONE\nTWO\nTHREE");
        stripped(&mut e).iter().filter(|p| **p == [0x14, 0x2F]).count() / 2
    };
    assert_eq!([shown(0), shown(1), shown(2), shown(3), shown(9)], [3, 3, 2, 1, 1]);
    let mut e = Cc608Encoder::with_mode(Channel::Cc2, Mode608::PopOn);
    e.clear();
    assert_eq!(stripped(&mut e), [[0x1C, 0x2C], [0x1C, 0x2C], [0x1C, 0x2E], [0x1C, 0x2E]]);
}

#[test]
fn channels() {
    let all = [Channel::Cc1, Channel::Cc2, Channel::Cc3, Channel::Cc4];
    assert_eq!(all.map(|c| c.misc_control_byte()), [0x14, 0x1C, 0x15, 0x1D]);
    assert_eq!(all.map(|c| c.is_second_in_field()), [false, true, false, true]);
}

#[test]
fn windows_708() {
    let mut e = Cc708Encoder::new(1).unwrap();
    e.set_window(2, 20);
    e.push_text("A");
    let b = e.take_block(31);
    assert_eq!(&b[..7], [0x98, 0x20, 0xDA, 50, 0x71, 19, 0x21]);
    while !e.take_block(31).is_empty() {}
    e.backspace();
    e.clear();
    assert_eq!(e.pending_bytes(), 3);
    assert_eq!(e.take_block(31), [0x08, 0x88, 0x01]);
    assert_eq!((e.pending_bytes(), e.dropped_units()), (0, 0));
}

#[test]
fn characters_708_and_608() {
    assert_eq!(map_608('A'), [Cell::Basic(b'A')]);
    assert_eq!(map_608('à'), [Cell::Special(0x38)]);
    assert_eq!(map_608('Ä'), [Cell::Extended { set: 0x13, lo: 0x30, base: b'A' }]);
    assert!(map_608('日').is_empty() && map_708('日').is_empty());
    assert_eq!((map_708('é').len(), map_708('Œ').len()), (1, 1));
}

#[test]
fn encoders_in_the_mux() {
    let mut m = CcMux::new(FrameRate::Fps30);
    assert_eq!((m.rate(), m.cc_count(), m.frame_count()), (FrameRate::Fps30, 20, 0));
    assert!(m.cc608_mut(Channel::Cc1).is_none() && m.cc708_mut(2).is_none());
    m.add_608(Cc608Encoder::new(Channel::Cc1));
    m.add_708(Cc708Encoder::new(2).unwrap());
    m.cc608_mut(Channel::Cc1).unwrap().push_text("HI");
    m.cc708_mut(2).unwrap().push_text("HI");
    assert!(m.cc608_mut(Channel::Cc1).unwrap().next_pair().is_some());
    assert!(!m.cc708_mut(2).unwrap().is_idle());
    m.next_frame();
    assert_eq!(m.frame_count(), 1);
    assert!(FrameRate::Fps60.is_double_rate() && !FrameRate::Fps25.is_double_rate());
}

#[test]
fn streams_are_mapped_in_order() {
    use_map(&[], vec![], None);
    use_map(
        &[StreamKind::Other, StreamKind::Audio, StreamKind::Video, StreamKind::Video],
        vec![None, Some(0), Some(1), Some(2)],
        Some(2),
    );
}

fn use_map(kinds: &[StreamKind], map: Vec<Option<usize>>, video: Option<usize>) {
    assert_eq!(map_streams(kinds), (map, video));
}

#[test]
fn outputs_wait_for_a_fresh_keyframe() {
    let key =
        Arrival { lost: false, layout_id: 1, same_streams: false, video: true, key: true, age_ns: 0 };
    let mut s = OutputSync::new();
    assert_eq!(s.on_packet(Arrival { key: false, ..key }), OutputStep::Skip);
    assert_eq!(s.on_packet(Arrival { video: false, ..key }), OutputStep::Skip);
    assert_eq!(s.on_packet(Arrival { age_ns: STALE_NS, ..key }), OutputStep::Skip);
    assert_eq!(s.on_packet(key), OutputStep::Start);
    let rest = Arrival { same_streams: true, key: false, ..key };
    assert_eq!(s.on_packet(rest), OutputStep::Write);
    assert_eq!(s.on_packet(Arrival { lost: true, ..rest }), OutputStep::Skip);
    assert_eq!(s.on_packet(rest), OutputStep::Skip);
    assert_eq!(s.on_packet(Arrival { key: true, ..rest }), OutputStep::Write);
    // The same streams in a new session go on; other streams reopen the output.
    assert_eq!(s.on_packet(Arrival { layout_id: 2, ..rest }), OutputStep::Write);
    assert_eq!(s.on_packet(Arrival { layout_id: 3, same_streams: false, ..rest }), OutputStep::Reopen);
    assert_eq!(s, OutputSync::new());
}

#[test]
fn small_decisions() {
    assert!(is_later(Some(2), Some(1)) && !is_later(Some(1), Some(1)));
    assert!(is_later(None, Some(1)) && is_later(Some(-5), None));
    assert_eq!(watch_codec(0, Some(true)), (1, false));
    assert_eq!(watch_codec(1, None), (1, false));
    assert_eq!(watch_codec(1, Some(false)), (0, false));
    assert_eq!(watch_codec(1, Some(true)), (0, true));
    assert_eq!([250, 500, 1000, 2000].map(next_retry_ms), [500, 1000, 2000, 2000]);
    assert_eq!(
        (double_wait(250, 2000), double_wait(1500, 2000), double_wait(5, 3), double_wait(0, 9)),
        (500, 2000, 3, 0)
    );
    assert_eq!(wall_90k(1_000_000_000), 90_000);
    assert_eq!(wall_90k(199_999), 9);
}

#[test]
fn options_and_memory() {
    let list = strings(&["a=1", "plain", "b=c=d", "=x"]);
    let got = parse_opts(&list);
    let got: Vec<(&str, &str)> = got.iter().map(|(k, v)| (k.as_str(), v.as_str())).collect();
    assert_eq!(got, [("a", "1"), ("b", "c=d"), ("", "x")]);
    let defaults = default_in_opts();
    assert_eq!(
        defaults,
        ["rw_timeout=2000000", "probesize=500000", "analyzeduration=1500000", "fflags=+noparse"]
    );
    assert_eq!(rss_kib("5000 1234 99 1 0 2 0\n"), 4936);
    assert_eq!((rss_kib(""), rss_kib("1 x")), (0, 0));
    assert_eq!(pages_resident("1 18446744073709551615"), u64::MAX);
    assert_eq!(pages_resident("1"), 0);
}

#[test]
fn packets_of_the_input_are_sorted_out() {
    let (map, _) = map_streams(&[StreamKind::Other, StreamKind::Video, StreamKind::Audio]);
    assert_eq!(take_packet(&map, 3, Some(1), Some(1)), InputStep::Reopen);
    assert_eq!(take_packet(&map, 0, Some(1), Some(1)), InputStep::Skip);
    assert_eq!(take_packet(&map, 0, None, None), InputStep::Skip);
    assert_eq!(take_packet(&map, 2, None, None), InputStep::Untimed);
    let pass = |stream, dts, pts| InputStep::Pass { stream, dts, pts };
    assert_eq!(take_packet(&map, 1, Some(-4), Some(5)), pass(0, -4, 5));
    assert_eq!(take_packet(&map, 2, None, Some(5)), pass(1, 5, 5));
    assert_eq!(take_packet(&map, 2, Some(3), None), pass(1, 3, 3));
    assert_eq!((due_time(None, None), due_time(Some(1), Some(2))), (None, Some(1)));
}

#[test]
fn soft_errors_leave_the_stream_usable() {
    assert!(FrameError::BadKind(9).is_soft() && FrameError::BadPcm.is_soft());
    for e in [FrameError::Closed, FrameError::Truncated, FrameError::BadLength(0)] {
        assert!(!e.is_soft());
    }
}

#[test]
fn deltas_that_do_not_fit() {
    let mut r = Rebase::new();
    r.new_session(1);
    assert_eq!(r.delta_fitting(0, i64::MIN, 0), Some(0));
    r.delta_for(0, 0, 0);
    r.sent(i64::MAX, 0);
    // A jump opens an epoch after the end of what was sent.
    assert_eq!(r.delta_fitting(0, 1_000_000, i64::MAX), None);
    assert_eq!(r.delta_fitting(0, 1000, 1000), Some(0));
}

#[test]
fn audio_streams_are_placed() {
    let aac = |index, track| audio_plan("audio/mpeg", Some(4), index, track);
    let plan = |to_output, to_tap| {
        Some(AudioPlan { parser: AudioParser::Aac, to_output, to_tap, tap_refused: false })
    };
    assert_eq!(aac(0, 0), plan(true, true));
    assert_eq!(aac(0, 1), plan(true, false));
    assert_eq!(aac(1, 1), plan(false, true));
    assert_eq!(aac(2, 1), None);
    let ac3 = audio_plan("audio/x-ac3", None, 1, 1).unwrap();
    assert!(!ac3.to_output && !ac3.to_tap && ac3.tap_refused);
    let other = audio_plan("audio/x-opus", None, 0, 0).unwrap();
    assert!(other.to_output && !other.to_tap && !other.tap_refused);
}

#[test]
fn times_past_the_end_are_refused() {
    let mut c = Clock::default();
    c.frame(u64::MAX - 10, 1600);
    assert_eq!(c.at_checked(0), Some(u64::MAX - 10));
    assert_eq!(c.at_checked(160), Some(u64::MAX));
    assert_eq!(c.at_checked(176), None);
}

#[test]
fn frame_headers() {
    assert_eq!(frame_length(&[5, 0, 0, 0]), Ok(5));
    assert_eq!(frame_length(&[0, 0, 0, 0]), Err(FrameError::BadLength(0)));
    assert_eq!(frame_length(&[255, 255, 255, 255]), Err(FrameError::BadLength(0xFFFF_FFFF)));
    assert!(MAX_FRAME < 0xFFFF_FFFF);
    match decode_frame(KIND_PCM, &[1, 0, 0, 0, 0, 0, 0, 0, 0xFF, 0xFF]) {
        Ok(IpcFrame::Pcm { start_ms, samples }) => assert_eq!((start_ms, samples), (1, vec![-1])),
        _ => panic!("not PCM"),
    }
    assert!(matches!(decode_frame(KIND_PCM, &[1, 2]), Err(FrameError::BadPcm)));
}

#[test]
fn names() {
    assert_eq!(worker_name(Mode::Asr), "fake-asr");
    assert_eq!(worker_name(Mode::Mt), "fake-mt");
    assert_eq!(
        model_names("es"),
        ("opus-mt-en-es".to_string(), "opus-mt-tc-big-en-es".to_string())
    );
    assert_eq!(parse_pts(&[0x21, 0x00, 0x07, 0xD8, 0x61]), Some(126_000));
    assert_eq!(parse_pts(&[0x21, 0x00, 0x07, 0xD8]), None);
    assert_eq!(TapClock::new().start_of(None), 0);
    assert_eq!(TapClock::new().start_of(Some(40)), 40);
}
