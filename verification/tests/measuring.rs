use multi::annexb::VideoCodec;
use multi::epochs::{Rebase, EPOCH_MARGIN_90K};
use multi::matching::{content_words, match_count, word_eq};
use multi::nal::{first_vcl_offset, insert_sei, is_keyframe, looks_like_other_codec, Skip};
use multi::probe::video_pes_pts;
use multi::reorder::{Meta, Reorder};
use multi::report::{match_frames, pts_diff, MatchMode, Row};
use multi::srt::{raw_cues, time_parts};
use multi::ts::{crc32_mpeg2, extend_tail, TsParser, PTS_WRAP, TAIL_KEEP};
use multi::wav::{wav_data, WavError};

fn seconds(text: &str) -> f64 {
    let p = time_parts(text).unwrap();
    let h: f64 = p.hours.parse().unwrap();
    let m: f64 = p.minutes.parse().unwrap();
    let s: f64 = p.seconds.parse().unwrap();
    let f: f64 = format!("0.{}", p.fraction).parse().unwrap();
    h * 3600.0 + m * 60.0 + s + f
}

#[test]
fn srt_parse_and_tags() {
    let s = "1\n00:00:01,500 --> 00:00:02,000\n<i>HELLO</i> {\\an7}world\n\n2\r\n00:01:00,000 --> 00:01:01,250\r\nsecond\r\n";
    let c = raw_cues(s);
    assert_eq!(c.len(), 2);
    assert!((seconds(&c[0].start) - 1.5).abs() < 1e-9);
    assert_eq!(c[0].text.trim(), "HELLO world");
    assert!((seconds(&c[1].end) - 61.25).abs() < 1e-9);
}

#[test]
fn times_need_three_fields_and_a_fraction() {
    assert!(time_parts("00:01,500").is_none());
    assert!(time_parts("00:00:01").is_none());
    let p = time_parts(" 01:02:03.25 ").unwrap();
    assert_eq!(
        (p.hours.as_str(), p.minutes.as_str(), p.seconds.as_str(), p.fraction.as_str()),
        ("01", "02", "03", "25")
    );
}

#[test]
fn fuzzy_match_rules() {
    let t = content_words("HE HOPED THERE WOULD BE STEW FOR DINNER TURNIPS AND CARROTS");
    assert_eq!(&t[t.len() - 3..], ["dinner", "turnips", "carrots"]);
    let target = t[t.len() - 3..].to_vec();
    // Exact, case/punctuation-insensitive.
    assert_eq!(match_count(&target, &content_words("for dinner, turnips and carrots.")), 3);
    // One ASR error on a middle word still passes the 2-of-3 rule.
    assert_eq!(match_count(&target, &content_words("for diner turnip and carrots")), 3);
    assert_eq!(match_count(&target, &content_words("for lunch turnips and carrots")), 2);
    // Last word missing -> no match (avoids early matches on partial text).
    assert_eq!(match_count(&target, &content_words("for dinner turnips and")), 0);
    assert!(word_eq("carrots", "carots"));
    assert!(word_eq("now", "nox"));
    assert!(!word_eq("it", "is"));
    assert!(!word_eq("cat", "dog"));
}

fn wav(data: usize) -> Vec<u8> {
    let mut d = b"RIFF\0\0\0\0WAVEfmt ".to_vec();
    d.extend(16u32.to_le_bytes());
    d.extend([1, 0, 1, 0]);
    d.extend(16000u32.to_le_bytes());
    d.extend(32000u32.to_le_bytes());
    d.extend([2, 0, 16, 0]);
    d.extend(b"data");
    d.extend(64000u32.to_le_bytes());
    d.extend(vec![0u8; data]);
    d
}

#[test]
fn wav_header() {
    let d = wav_data(&wav(64000)).unwrap();
    let dur = d.size as f64 / f64::from(d.byte_rate);
    assert!((dur - 2.0).abs() < 1e-9);
}

#[test]
fn wav_errors() {
    // A file cut short holds what it holds.
    assert_eq!(wav_data(&wav(100)).unwrap().size, 100);
    assert_eq!(wav_data(b"RIFF"), Err(WavError::NotWave));
    assert_eq!(wav_data(b"RIFF\0\0\0\0WAVE"), Err(WavError::NoData));
    assert_eq!(
        wav_data(b"RIFF\0\0\0\0WAVEdata\x04\0\0\0abcd"),
        Err(WavError::DataBeforeFormat)
    );
}

fn rows(pts0: i64, wall0: i64, n: usize, hash_base: u64) -> Vec<Row> {
    (0..n)
        .map(|k| Row {
            wall: wall0 + k as i64 * 33_333_333,
            pts: Some((pts0 + k as i64 * 3000).rem_euclid(PTS_WRAP)),
            seq: k as u64 + 1,
            hash: hash_base + k as u64,
        })
        .collect()
}

#[test]
fn detects_offset_across_wrap() {
    let inp = rows(PTS_WRAP - 30_000, 0, 100, 1000);
    // Output shifted +90000 ticks (wraps), 50 ms later, first 3 frames lost.
    let out: Vec<Row> = rows(PTS_WRAP - 30_000 + 90_000, 50_000_000, 100, 1000)
        .into_iter()
        .skip(3)
        .collect();
    let m = match_frames(&inp, &out, MatchMode::Auto, None);
    assert_eq!(m.method, "content hash");
    assert_eq!(m.pts_offset, Some(90_000));
    assert_eq!(m.pairs.len(), 97);
    for &(i, j) in &m.pairs {
        assert_eq!(out[j].wall - inp[i].wall, 50_000_000);
    }
    // PTS-only matching with the detected offset gives the same pairs.
    let p = match_frames(&inp, &out, MatchMode::Pts, Some(90_000));
    assert_eq!(p.pairs, m.pairs);
}

#[test]
fn falls_back_to_pts_when_hashes_differ() {
    let inp = rows(0, 0, 50, 1);
    let out = rows(0, 10_000_000, 50, 9999);
    let m = match_frames(&inp, &out, MatchMode::Auto, None);
    assert_eq!(m.method, "pts");
    assert_eq!(m.pairs.len(), 50);
}

#[test]
fn diff_mod() {
    assert_eq!(pts_diff(5, PTS_WRAP - 5), 10);
    assert_eq!(pts_diff(PTS_WRAP - 5, 5), -10);
}

fn pkt(pid: u16, pusi: bool, cc: u8, payload: &[u8]) -> Vec<u8> {
    let mut p = vec![0x47, ((pusi as u8) << 6) | (pid >> 8) as u8, pid as u8];
    let room = 184;
    if payload.len() >= room {
        p.push(0x10 | cc);
        p.extend_from_slice(&payload[..room]);
    } else {
        // Adaptation field stuffing.
        let af_len = room - payload.len() - 1;
        p.push(0x30 | cc);
        p.push(af_len as u8);
        if af_len > 0 {
            p.push(0);
            p.extend(std::iter::repeat(0xFF).take(af_len - 1));
        }
        p.extend_from_slice(payload);
    }
    assert_eq!(p.len(), 188);
    p
}

fn section(table_id: u8, ext: u16, version: u8, body: &[u8]) -> Vec<u8> {
    let len = 5 + body.len() + 4;
    let mut s = vec![
        table_id,
        0xB0 | (len >> 8) as u8,
        len as u8,
        (ext >> 8) as u8,
        ext as u8,
        0xC1 | (version << 1),
        0,
        0,
    ];
    s.extend_from_slice(body);
    let crc = crc32_mpeg2(&s);
    s.extend_from_slice(&crc.to_be_bytes());
    s
}

fn pat(pmt_pid: u16, version: u8) -> Vec<u8> {
    let body = [0, 1, 0xE0 | (pmt_pid >> 8) as u8, pmt_pid as u8];
    let mut p = vec![0];
    p.extend(section(0, 1, version, &body));
    pkt(0, true, 0, &p)
}

fn pmt(pmt_pid: u16, video_pid: u16, version: u8) -> Vec<u8> {
    let body = [
        0xE0 | (video_pid >> 8) as u8,
        video_pid as u8,
        0xF0,
        0,
        0x1B,
        0xE0 | (video_pid >> 8) as u8,
        video_pid as u8,
        0xF0,
        0,
    ];
    let mut p = vec![0];
    p.extend(section(2, 1, version, &body));
    pkt(pmt_pid, true, 0, &p)
}

fn pes(pid: u16, pts: i64, cc: u8, fill: u8) -> Vec<u8> {
    let p = pts & (PTS_WRAP - 1);
    let mut h = vec![0, 0, 1, 0xE0, 0, 0, 0x80, 0x80, 5];
    h.push(0x21 | (((p >> 30) & 7) as u8) << 1);
    h.push((p >> 22) as u8);
    h.push(0x01 | ((p >> 15) as u8) << 1);
    h.push((p >> 7) as u8);
    h.push(0x01 | (p as u8) << 1);
    h.extend(std::iter::repeat(fill).take(300));
    let mut v = pkt(pid, true, cc, &h[..184]);
    v.extend(pkt(pid, false, (cc + 1) & 15, &h[184..]));
    v
}

#[test]
fn crc_known_value() {
    // CRC-32/MPEG-2 check value for "123456789".
    assert_eq!(crc32_mpeg2(b"123456789"), 0x0376_E6E7);
}

#[test]
fn crc_of_checked_data_is_zero() {
    let mut d = b"123456789".to_vec();
    let crc = crc32_mpeg2(&d);
    d.extend_from_slice(&crc.to_be_bytes());
    assert_eq!(crc32_mpeg2(&d), 0);
}

#[test]
fn synthetic_stream_and_pmt_change() {
    let mut t = TsParser::default();
    let mut out = Vec::new();
    let mut d = pat(0x1000, 0);
    d.extend(pmt(0x1000, 0x100, 0));
    t.feed(&d, 1, &mut out);
    assert_eq!(t.video_pid(), Some(0x100));
    t.feed(&pes(0x100, 1000, 0, 1), 2, &mut out);
    t.feed(&pes(0x100, 4000, 2, 2), 3, &mut out);
    assert_eq!(out.len(), 1);
    assert_eq!(out[0].pts, Some(1000));
    assert_eq!(out[0].wall_ns, 2);
    // New PMT moves video to PID 0x200; the partial PES is dropped.
    t.feed(&pmt(0x1000, 0x200, 1), 4, &mut out);
    assert_eq!(t.video_pid(), Some(0x200));
    assert_eq!(t.stats.pmt_changes, 1);
    t.feed(&pes(0x200, 7000, 0, 3), 5, &mut out);
    t.flush(&mut out);
    assert_eq!(out.len(), 2);
    assert_eq!(out[1].pts, Some(7000));
    assert_eq!(t.stats.cc_errors, 0);
    // PAT change to a new PMT PID.
    t.feed(&pat(0x1100, 1), 6, &mut out);
    assert_eq!(t.stats.pat_changes, 1);
    t.feed(&pmt(0x1100, 0x300, 0), 7, &mut out);
    assert_eq!(t.video_pid(), Some(0x300));
}

#[test]
fn pts_wrap_is_unwrapped() {
    let mut t = TsParser::default();
    let mut out = Vec::new();
    let mut d = pat(0x1000, 0);
    d.extend(pmt(0x1000, 0x100, 0));
    t.feed(&d, 0, &mut out);
    let near = PTS_WRAP - 3000;
    t.feed(&pes(0x100, near, 0, 1), 1, &mut out);
    t.feed(&pes(0x100, near + 3000, 2, 2), 2, &mut out);
    t.feed(&pes(0x100, near + 6000, 4, 3), 3, &mut out);
    t.flush(&mut out);
    let pts: Vec<_> = out.iter().map(|f| f.pts.unwrap_or(-1)).collect();
    assert_eq!(pts, vec![near, near + 3000, near + 6000]);
    assert_eq!(t.stats.pts_wraps, 1);
}

#[test]
fn garbage_never_panics() {
    let mut t = TsParser::default();
    let mut out = Vec::new();
    // Pseudo-random bytes, with and without sync bytes sprinkled in.
    let mut x: u32 = 12345;
    for round in 0..200 {
        let mut buf = Vec::new();
        for j in 0..(round * 37 % 1500) {
            x = x.wrapping_mul(1_103_515_245).wrapping_add(12345);
            let b = (x >> 16) as u8;
            buf.push(if j % 188 == 0 && round % 2 == 0 { 0x47 } else { b });
        }
        t.feed(&buf, round as i64, &mut out);
    }
    // Truncated / corrupt real packets.
    let mut d = pat(0x1000, 0);
    d.extend(pmt(0x1000, 0x100, 0));
    d[5] ^= 0xFF; // break PAT CRC
    t.feed(&d, 0, &mut out);
    t.feed(&d[..100], 0, &mut out);
    t.flush(&mut out);
    assert!(t.stats.bad_sync > 0 || t.stats.crc_errors > 0);
}

#[test]
fn packets_split_across_datagrams() {
    let mut d = pat(0x1000, 0);
    d.extend(pmt(0x1000, 0x100, 0));
    d.extend(pes(0x100, 1000, 0, 1));
    d.extend(pes(0x100, 4000, 2, 2));
    let mut t = TsParser::default();
    let mut out = Vec::new();
    for (k, c) in d.chunks(100).enumerate() {
        t.feed(c, k as i64, &mut out);
    }
    t.flush(&mut out);
    assert_eq!(out.len(), 2);
    assert_eq!(t.stats.bad_sync, 0);
    assert_eq!(out[1].pts, Some(4000));
}

#[test]
fn pieces_do_not_matter() {
    let mut d = pat(0x1000, 0);
    d.extend(pmt(0x1000, 0x100, 0));
    d.extend(pes(0x100, 1000, 0, 1));
    d.extend(pmt(0x1000, 0x200, 1));
    d.extend(pes(0x200, 4000, 5, 2));
    d.extend(pes(0x200, 7000, 9, 3));
    let run = |size: usize| {
        let mut t = TsParser::default();
        let mut out = Vec::new();
        for (k, c) in d.chunks(size).enumerate() {
            t.feed(c, 10 * k as i64, &mut out);
        }
        t.flush(&mut out);
        assert_eq!(t.stats.bad_sync, 0);
        assert_eq!((t.stats.packets, t.stats.cc_errors, t.stats.pmt_changes), (9, 1, 1));
        assert_eq!(t.video_pid(), Some(0x200));
        let frames: Vec<_> = out.iter().map(|f| (f.pts, f.seq, f.tail_hash)).collect();
        frames
    };
    let whole = run(d.len());
    assert_eq!(whole.len(), 2);
    assert_eq!((whole[0].0, whole[1].0), (Some(4000), Some(7000)));
    for size in [1, 7, 100, 188, 189, 1000] {
        assert_eq!(run(size), whole);
    }
}

#[test]
fn fresh_parser_of_the_first_program() {
    let mut t = TsParser::default();
    assert_eq!((t.stats.packets, t.stats.frames, t.stats.bad_sync), (0, 0, 0));
    assert_eq!(t.video_pid(), None);
    let mut out = Vec::new();
    t.flush(&mut out);
    assert!(out.is_empty());
    let mut d = pat(0x1000, 0);
    d.extend(pmt(0x1000, 0x100, 0));
    d.extend(pes(0x100, 1000, 3, 1));
    t.feed(&d, 1, &mut out);
    t.flush(&mut out);
    assert_eq!((out.len(), out[0].seq, out[0].pts), (1, 1, Some(1000)));
    assert_eq!((t.stats.cc_errors, t.stats.frames), (0, 1));
}

#[test]
fn content_hash_ignores_trailing_zeros_and_prefix() {
    let a = extend_tail(Vec::new(), &[9; 1000]);
    let a = extend_tail(a, &[1, 2, 3]);
    assert!(a.len() <= TAIL_KEEP * 2);
    assert_eq!(&a[a.len() - 3..], &[1, 2, 3]);
}

#[test]
fn h264_after_aud_sps_pps_sei() {
    // AUD(9) SPS(7) PPS(8) SEI(6) IDR(5)
    let au = [
        0, 0, 0, 1, 0x09, 0xF0, 0, 0, 0, 1, 0x67, 0xAA, 0, 0, 1, 0x68, 0xBB, 0, 0, 1, 0x06, 0xCC, 0,
        0, 0, 1, 0x65, 0xDD,
    ];
    let out = insert_sei(&au, &[0x06, 0x04, 0x99], VideoCodec::H264).unwrap();
    let at = 22; // the 4-byte start code of the IDR slice
    assert_eq!(&out[..at], &au[..at]);
    assert_eq!(&out[at..at + 7], &[0, 0, 0, 1, 0x06, 0x04, 0x99]);
    assert_eq!(&out[at + 7..], &au[at..]);
}

#[test]
fn hevc_slice_detected() {
    // AUD(35) VPS(32) SPS(33) PPS(34) IDR_W_RADL(19)
    let au = [
        0, 0, 0, 1, 0x46, 0x01, 0x50, 0, 0, 1, 0x40, 0x01, 0, 0, 1, 0x42, 0x01, 0, 0, 1, 0x44, 0x01,
        0, 0, 1, 0x26, 0x01, 0xAF,
    ];
    assert_eq!(first_vcl_offset(&au, VideoCodec::Hevc), Some(22));
    assert!(is_keyframe(&au, VideoCodec::Hevc));
    assert!(!is_keyframe(&[0, 0, 1, 0x02, 0x01], VideoCodec::Hevc));
    assert!(is_keyframe(&[0, 0, 1, 0x09, 0xF0, 0, 0, 1, 0x65], VideoCodec::H264));
    assert!(!is_keyframe(&[0, 0, 1, 0x41, 0x9A], VideoCodec::H264));
    // A key slice anywhere in the access unit counts.
    assert!(is_keyframe(&[0, 0, 1, 0x41, 0x9A, 0, 0, 1, 0x65, 0x88], VideoCodec::H264));
    assert!(!is_keyframe(&[0, 0, 1, 0x41, 0x9A, 0, 0, 1, 0x41, 0x88], VideoCodec::H264));
    assert!(is_keyframe(&[0, 0, 1, 0x02, 0x01, 0, 0, 0, 1, 0x26, 0x01], VideoCodec::Hevc));
    // A 3-byte start code preceded by a data byte is not widened.
    assert_eq!(first_vcl_offset(&[0, 0, 1, 0x26, 0x01], VideoCodec::Hevc), Some(0));
}

#[test]
fn codec_mismatch() {
    let hevc_aud = [0, 0, 0, 1, 0x46, 0x01, 0x50];
    let h264_aud = [0, 0, 0, 1, 0x09, 0xF0];
    assert_eq!(looks_like_other_codec(&hevc_aud, VideoCodec::H264), Some(true));
    assert_eq!(looks_like_other_codec(&hevc_aud, VideoCodec::Hevc), Some(false));
    assert_eq!(looks_like_other_codec(&h264_aud, VideoCodec::Hevc), Some(true));
    assert_eq!(looks_like_other_codec(&h264_aud, VideoCodec::H264), Some(false));
    assert_eq!(looks_like_other_codec(&[0, 0, 1, 0x41, 0x9A], VideoCodec::H264), Some(false));
    assert_eq!(looks_like_other_codec(&[0, 0, 1, 0x02, 0x01], VideoCodec::Hevc), Some(false));
    // HEVC TRAIL_R slice header is also a valid H.264 header: undecided.
    assert_eq!(looks_like_other_codec(&[0, 0, 1, 0x02, 0x01], VideoCodec::H264), None);
}

#[test]
fn skips() {
    assert_eq!(insert_sei(&[0x65, 1, 2], &[6], VideoCodec::H264), Err(Skip::NotAnnexB));
    assert_eq!(insert_sei(&[0, 0, 1, 0x67, 1], &[6], VideoCodec::H264), Err(Skip::NoVcl));
    assert_eq!(insert_sei(&[], &[6], VideoCodec::H264), Err(Skip::NotAnnexB));
}

#[test]
fn captions_follow_display_order() {
    // Decode order I P B B P B B with PTS 0 3 1 2 6 4 5.
    let pts = [0, 3, 1, 2, 6, 4, 5];
    let mut r: Reorder<()> = Reorder::new(2);
    let mut next = 0;
    let mut got = Vec::new();
    for p in pts {
        let meta = Meta { session: 1, frame: None, in_pts: p, read_ns: 0 };
        got.extend(r.push((), p, meta, &mut next).into_iter().map(|(_, m)| (m.in_pts, m.frame)));
    }
    got.extend(r.flush(&mut next).into_iter().map(|(_, m)| (m.in_pts, m.frame)));
    // Leaves in decode order; caption index == display rank == PTS here.
    let want: Vec<(i64, Option<u64>)> = pts.iter().map(|&p| (p, Some(p as u64))).collect();
    assert_eq!(got, want);
}

#[test]
fn restart_continues_at_wall_pace() {
    let mut r = Rebase::new();
    r.new_session(1);
    let w0 = 1_000_000_000;
    // 10 s of video at 30 fps, arriving on time.
    for i in 0..300 {
        let dts = 126_000 + i * 3000;
        let d = r.delta_for(0, dts, w0 + i * 3000);
        assert_eq!(d, 0);
        r.sent(dts + d, 3000);
    }
    // A stale last packet flushed late must not shift the anchor.
    r.delta_for(0, 126_000 + 299 * 3000, w0 + 299 * 3000 + 450_000);
    // Source restarts 5 s after its last frame was due, PTS from 126000 again.
    let wall = w0 + 299 * 3000 + 450_000;
    let d = r.delta_for(0, 126_000, wall);
    let out = 126_000 + d;
    let end = 126_000 + 300 * 3000;
    assert_eq!(out, end + 450_000 + EPOCH_MARGIN_90K);
}

#[test]
fn depth_zero_is_passthrough() {
    let mut r: Reorder<()> = Reorder::new(0);
    let mut next = 0;
    let meta = Meta { session: 1, frame: None, in_pts: 0, read_ns: 0 };
    assert_eq!(r.push((), 0, meta, &mut next).len(), 1);
    assert_eq!(next, 1);
}

#[test]
fn parses_pes_pts() {
    let mut ts = [0xFFu8; 188];
    ts[..4].copy_from_slice(&[0x47, 0x41, 0x00, 0x10]);
    // PES: start code, stream 0xE0, len 0, flags 0x80 0x80, hdr len 5, PTS = 126000
    let pts: i64 = 126_000;
    let pes = [
        0,
        0,
        1,
        0xE0,
        0,
        0,
        0x80,
        0x80,
        5,
        0x21 | (((pts >> 30) & 7) << 1) as u8,
        (pts >> 22) as u8,
        (((pts >> 15) & 0x7F) << 1) as u8 | 1,
        (pts >> 7) as u8,
        ((pts & 0x7F) << 1) as u8 | 1,
    ];
    ts[4..4 + pes.len()].copy_from_slice(&pes);
    let mut out = Vec::new();
    video_pes_pts(&ts, &mut out);
    assert_eq!(out, [pts]);
}
