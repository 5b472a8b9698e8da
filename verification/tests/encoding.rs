use multi::annexb::{split_nals, starts_picture, VideoCodec};
use multi::cc::{
    a53_payload, escape, fixture_triples, h264_sei_nal, hevc_sei_nal, odd_parity, CcTriple, CcType,
    Channel,
};
use multi::cea608::{pac, Cc608Encoder, Mode608, COLUMNS, MAX_QUEUE_PAIRS};
use multi::cea708::{Cc708Encoder, MAX_QUEUE_UNITS};
use multi::mux::{CcMux, FrameRate};
use multi::text::{cells_608, cells_708, wrap};

#[test]
fn split_handles_3_and_4_byte_start_codes() {
    let s = [
        0, 0, 0, 1, 0x67, 1, 2, 0, 0, 1, 0x68, 3, 0, 0, 0, 0, 1, 0x65, 0x88,
    ];
    assert_eq!(
        split_nals(&s),
        [&[0x67, 1, 2][..], &[0x68, 3], &[0x65, 0x88]]
    );
    assert!(split_nals(&[]).is_empty());
    assert!(split_nals(&[0, 0, 1]).is_empty());
}

#[test]
fn start_codes_may_differ() {
    let units: [&[u8]; 3] = [&[0x67, 1, 0, 0, 3], &[0x68], &[0x65, 0, 0x88]];
    for lead in [[0, 0, 0], [1, 1, 1], [0, 1, 0], [3, 0, 2]] {
        for tail in [0, 1, 4] {
            let mut s = Vec::new();
            for (nal, n) in units.iter().zip(lead) {
                s.extend(std::iter::repeat(0).take(n));
                s.extend_from_slice(&[0, 0, 1]);
                s.extend_from_slice(nal);
            }
            s.extend(std::iter::repeat(0).take(tail));
            assert_eq!(split_nals(&s), units);
        }
    }
}

#[test]
fn a_run_of_captions() {
    let mut e = Cc608Encoder::with_mode(Channel::Cc4, Mode608::PopOn);
    let mut dropped = 0;
    for k in 0..300 {
        let before = e.pending();
        e.push_text("\u{1F600}");
        assert_eq!((e.pending(), e.dropped_pairs()), (before, dropped));
        e.push_text("A CAPTION OF TWO LINES, THE SECOND ONE SHORTER");
        assert!(e.pending() <= MAX_QUEUE_PAIRS);
        assert!(e.dropped_pairs() >= dropped);
        if e.dropped_pairs() > dropped {
            assert!(e.at_boundary());
        }
        dropped = e.dropped_pairs();
        for _ in 0..k % 7 {
            let p = e.next_pair().unwrap();
            assert_eq!((p[0].count_ones() % 2, p[1].count_ones() % 2), (1, 1));
        }
    }
    assert!(dropped > 0);
}

#[test]
fn picture_starts() {
    assert!(starts_picture(VideoCodec::H264, &[0x65, 0x88]));
    assert!(!starts_picture(VideoCodec::H264, &[0x65, 0x08]));
    assert!(!starts_picture(VideoCodec::H264, &[0x67, 0x88]));
    assert!(starts_picture(VideoCodec::Hevc, &[0x26, 0x01, 0xAF]));
    assert!(!starts_picture(VideoCodec::Hevc, &[0x40, 0x01, 0x80]));
    assert!(!starts_picture(VideoCodec::Hevc, &[0x26]));
}

fn drain(e: &mut Cc608Encoder) -> Vec<[u8; 2]> {
    std::iter::from_fn(|| e.next_pair()).collect()
}

fn strip(pairs: &[[u8; 2]]) -> Vec<[u8; 2]> {
    pairs.iter().map(|p| [p[0] & 0x7F, p[1] & 0x7F]).collect()
}

#[test]
fn rollup_line_layout() {
    let mut e = Cc608Encoder::with_mode(Channel::Cc1, Mode608::RollUp(2));
    e.push_text("HI!");
    let p = strip(&drain(&mut e));
    assert_eq!(
        p,
        [
            [0x14, 0x25],
            [0x14, 0x25],
            [0x14, 0x2D],
            [0x14, 0x2D],
            [0x14, 0x70],
            [0x14, 0x70],
            *b"HI",
            [b'!', 0]
        ]
    );
}

#[test]
fn channel_control_bytes() {
    for (ch, hi, pac_hi) in [
        (Channel::Cc1, 0x14, 0x14),
        (Channel::Cc2, 0x1C, 0x1C),
        (Channel::Cc3, 0x15, 0x14),
        (Channel::Cc4, 0x1D, 0x1C),
    ] {
        let mut e = Cc608Encoder::with_mode(ch, Mode608::RollUp(4));
        e.push_text("A");
        let p = strip(&drain(&mut e));
        assert_eq!(p[0], [hi, 0x27], "{ch:?}");
        assert_eq!(p[4], [pac_hi, 0x70], "{ch:?}");
    }
}

#[test]
fn pac_rows_and_indent() {
    assert_eq!(pac(Channel::Cc1, 1, 0), [0x11, 0x50]);
    assert_eq!(pac(Channel::Cc1, 11, 0), [0x10, 0x50]);
    assert_eq!(pac(Channel::Cc1, 15, 8), [0x14, 0x74]);
    assert_eq!(pac(Channel::Cc2, 14, 28), [0x1C, 0x5E]);
}

#[test]
fn popon_sequence() {
    let mut e = Cc608Encoder::with_mode(Channel::Cc1, Mode608::PopOn);
    e.push_text("AB");
    let p = strip(&drain(&mut e));
    assert_eq!(
        p,
        [
            [0x14, 0x20],
            [0x14, 0x20],
            [0x14, 0x2E],
            [0x14, 0x2E],
            [0x14, 0x70],
            [0x14, 0x70],
            *b"AB",
            [0x14, 0x2F],
            [0x14, 0x2F]
        ]
    );
}

#[test]
fn painton_uses_rdc() {
    let mut e = Cc608Encoder::with_mode(Channel::Cc3, Mode608::PaintOn);
    e.push_text("X");
    let p = strip(&drain(&mut e));
    assert_eq!(p[0], [0x15, 0x29]);
}

#[test]
fn accented_characters() {
    let mut e = Cc608Encoder::with_mode(Channel::Cc1, Mode608::RollUp(2));
    e.push_text("é à Ä");
    let p = strip(&drain(&mut e));
    // é is basic 0x5C; à special 11 38 twice; Ä is 'A' then 13 30 twice.
    assert_eq!(
        &p[6..],
        [
            [0x5C, b' '],
            [0x11, 0x38],
            [0x11, 0x38],
            *b" A",
            [0x13, 0x30],
            [0x13, 0x30]
        ]
    );
}

#[test]
fn repeated_special_gets_separator() {
    let mut e = Cc608Encoder::with_mode(Channel::Cc2, Mode608::RollUp(2));
    e.push_text("èè");
    let p = strip(&drain(&mut e));
    assert_eq!(
        &p[6..],
        [
            [0x19, 0x3A],
            [0x19, 0x3A],
            [0x1C, 0x24],
            [0x1C, 0x24],
            [0x19, 0x3A],
            [0x19, 0x3A]
        ]
    );
}

#[test]
fn wraps_at_32_columns() {
    let mut e = Cc608Encoder::with_mode(Channel::Cc1, Mode608::RollUp(3));
    let text = "word ".repeat(20);
    e.push_text(&text);
    let p = strip(&drain(&mut e));
    let lines: Vec<usize> = p
        .split(|x| *x == [0x14, 0x26])
        .filter(|s| !s.is_empty())
        .map(|s| {
            s.iter()
                .skip(5)
                .map(|x| (x[0] >= 0x20) as usize + (x[1] >= 0x20) as usize)
                .sum()
        })
        .collect();
    assert!(lines.len() >= 3);
    assert!(lines.iter().all(|&n| n <= COLUMNS), "{lines:?}");
}

#[test]
fn cea608_weird_text_never_panics() {
    let long = "x".repeat(10_000);
    let inputs = [
        "",
        " ",
        "\n\n\n",
        "\u{0}\u{7}\t\r",
        "😀🎉",
        "日本語のテキスト",
        "Привет мир",
        "مرحبا",
        &long,
        "a\u{301}",
    ];
    for t in inputs {
        for mode in [Mode608::RollUp(9), Mode608::PopOn, Mode608::PaintOn] {
            let mut e = Cc608Encoder::with_mode(Channel::Cc4, mode);
            e.push_text(t);
            assert!(e.pending() <= MAX_QUEUE_PAIRS);
            for p in drain(&mut e) {
                assert_eq!(p[0].count_ones() % 2, 1);
                assert_eq!(p[1].count_ones() % 2, 1);
            }
        }
    }
    let mut e = Cc608Encoder::new(Channel::Cc1);
    e.push_text("😀");
    assert_eq!(e.next_pair(), None);
}

#[test]
fn overflow_drops_oldest_lines() {
    let mut e = Cc608Encoder::new(Channel::Cc1);
    for _ in 0..200 {
        e.push_text("THIS LINE IS FAIRLY LONG TEXT OK");
    }
    assert!(e.pending() <= MAX_QUEUE_PAIRS);
    assert!(e.dropped_pairs() > 0);
    assert!(e.at_boundary());
}

fn drain_708(e: &mut Cc708Encoder) -> Vec<u8> {
    let mut out = Vec::new();
    loop {
        let b = e.take_block(31);
        if b.is_empty() {
            break;
        }
        out.extend(b);
    }
    out
}

#[test]
fn services_range() {
    assert!(Cc708Encoder::new(0).is_none());
    assert!(Cc708Encoder::new(7).is_none());
    assert!((1..=6).all(|s| Cc708Encoder::new(s).is_some()));
}

#[test]
fn first_line_defines_window() {
    let mut e = Cc708Encoder::new(1).unwrap_or_else(|| unreachable!());
    e.push_text("Hé Œ");
    let b = drain_708(&mut e);
    assert_eq!(&b[..7], [0x98, 0x20, 0xDA, 50, 0x72, 31, 0x21]);
    assert_eq!(&b[7..12], [0x97, 0, 0, 0x0C, 0]);
    assert_eq!(
        &b[b.len() - 7..],
        [0x0D, b'H', 0xE9, b' ', 0x10, 0x2C, 0x03]
    );
}

#[test]
fn blocks_never_split_units() {
    let mut e = Cc708Encoder::new(2).unwrap_or_else(|| unreachable!());
    e.push_text(&"Œ".repeat(40));
    loop {
        let b = e.take_block(7);
        if b.is_empty() {
            break;
        }
        assert!(b.len() <= 7);
    }
    assert!(e.is_idle());
}

#[test]
fn cea708_weird_text_never_panics() {
    let long = "y".repeat(100_000);
    for t in ["", "\u{0}\u{1b}", "😀", "漢字", &long, "\n"] {
        let mut e = Cc708Encoder::new(6).unwrap_or_else(|| unreachable!());
        e.push_text(t);
        assert!(e.pending() <= MAX_QUEUE_UNITS);
        drain_708(&mut e);
    }
}

#[test]
fn parity_is_odd() {
    for b in 0..=0x7F_u8 {
        assert_eq!(odd_parity(b).count_ones() % 2, 1);
    }
    assert_eq!(odd_parity(0x00), 0x80);
    assert_eq!(odd_parity(0x14), 0x94);
}

#[test]
fn triple_header_byte() {
    assert_eq!(
        CcTriple::new(CcType::Field1, [0x94, 0x25]).to_bytes(),
        [0xFC, 0x94, 0x25]
    );
    assert_eq!(
        CcTriple::null608(CcType::Field2).to_bytes(),
        [0xFD, 0x80, 0x80]
    );
}

#[test]
fn a53_layout_matches_ffmpeg() {
    let p = a53_payload(&[CcTriple::new(CcType::Field1, [0x94, 0x25])]);
    assert_eq!(
        p,
        [0xB5, 0x00, 0x31, b'G', b'A', b'9', b'4', 0x03, 0x41, 0xFF, 0xFC, 0x94, 0x25, 0xFF]
    );
}

#[test]
fn emulation_prevention() {
    assert_eq!(
        escape(&[0, 0, 1, 0, 0, 0, 0, 0, 4]),
        [0, 0, 3, 1, 0, 0, 3, 0, 0, 3, 0, 4]
    );
}

#[test]
fn sei_headers() {
    let t = fixture_triples(0);
    assert_eq!(h264_sei_nal(&t)[..3], [0x06, 0x04, 17]);
    assert_eq!(hevc_sei_nal(&t)[..4], [0x4E, 0x01, 0x04, 17]);
}

#[test]
fn fixture_idles_after_line() {
    assert_eq!(fixture_triples(59)[0].data, [0x80, 0x80]);
    assert_eq!(fixture_triples(0)[0].data, [0x94, 0x25]);
}

#[test]
fn cc_counts() {
    for (r, n) in [
        (FrameRate::Fps29_97, 20),
        (FrameRate::Fps30, 20),
        (FrameRate::Fps59_94, 10),
        (FrameRate::Fps60, 10),
        (FrameRate::Fps25, 24),
    ] {
        let mut m = CcMux::new(r);
        m.add_608(Cc608Encoder::new(Channel::Cc1));
        m.add_708(Cc708Encoder::new(1).unwrap_or_else(|| unreachable!()));
        m.push_text_608(Channel::Cc1, "HELLO");
        m.push_text_708(1, "Hello world this is a long caption line");
        for _ in 0..50 {
            assert_eq!(m.next_frame().len(), n);
        }
    }
    assert_eq!(FrameRate::from_fps(30000, 1001), Some(FrameRate::Fps29_97));
    assert_eq!(FrameRate::from_fps(599, 10), Some(FrameRate::Fps59_94));
    assert_eq!(FrameRate::from_fps(0, 0), None);
    assert_eq!(FrameRate::from_fps(120, 1), None);
}

#[test]
fn frame_rates_are_the_nearest() {
    assert_eq!(FrameRate::from_fps(24000, 1001), Some(FrameRate::Fps23_976));
    assert_eq!(FrameRate::from_fps(24, 1), Some(FrameRate::Fps24));
    assert_eq!(FrameRate::from_fps(20, 1), Some(FrameRate::Fps23_976));
    assert_eq!(FrameRate::from_fps(65, 1), Some(FrameRate::Fps60));
    assert_eq!(FrameRate::from_fps(40, 1), Some(FrameRate::Fps30));
    assert_eq!(FrameRate::from_fps(1999, 100), None);
    assert_eq!(FrameRate::from_fps(6501, 100), None);
    assert_eq!(FrameRate::from_fps(u64::MAX, u64::MAX / 50), Some(FrameRate::Fps50));
}

#[test]
fn idle_frame_is_null_and_padding() {
    let mut m = CcMux::new(FrameRate::Fps30);
    let t = m.next_frame();
    assert_eq!(t[0].to_bytes(), [0xFC, 0x80, 0x80]);
    assert_eq!(t[1].to_bytes(), [0xFD, 0x80, 0x80]);
    assert!(t[2..].iter().all(|x| x.to_bytes() == [0xFA, 0, 0]));
}

#[test]
fn double_rate_alternates_fields() {
    let mut m = CcMux::new(FrameRate::Fps60);
    m.add_608(Cc608Encoder::new(Channel::Cc1));
    m.push_text_608(Channel::Cc1, "AB");
    let a = m.next_frame();
    let b = m.next_frame();
    assert!(a[0].valid && !a[1].valid);
    assert!(!b[0].valid && b[1].valid);
    assert_eq!(a[0].data, [0x94, 0x26]); // RU3 on field 1
    assert_eq!(b[1].data, [0x80, 0x80]);
}

#[test]
fn same_field_channels_interleave_by_line() {
    let mut m = CcMux::new(FrameRate::Fps30);
    m.add_608(Cc608Encoder::with_mode(Channel::Cc1, Mode608::RollUp(2)));
    m.add_608(Cc608Encoder::with_mode(Channel::Cc2, Mode608::RollUp(2)));
    m.push_text_608(Channel::Cc1, "AAAA\nBBBB");
    m.push_text_608(Channel::Cc2, "CCCC");
    let f1: Vec<[u8; 2]> = (0..40)
        .map(|_| m.next_frame()[0].data)
        .map(|p| [p[0] & 0x7F, p[1] & 0x7F])
        .collect();
    // Both busy at a boundary: the field goes to the other channel (CC2,
    // control codes with the 0x08 bit), then back to CC1 for its two lines.
    let ru: Vec<u8> = f1.iter().filter(|p| p[1] == 0x25).map(|p| p[0]).collect();
    assert_eq!(ru, [0x1C, 0x1C, 0x14, 0x14, 0x14, 0x14]);
    assert!(m.is_idle());
}

#[test]
fn dtvcc_packet_structure() {
    let mut m = CcMux::new(FrameRate::Fps30);
    m.add_708(Cc708Encoder::new(3).unwrap_or_else(|| unreachable!()));
    m.push_text_708(3, "Hi");
    let t = m.next_frame();
    assert_eq!(t[2].cc_type, CcType::DtvccStart);
    let bytes: Vec<u8> = t[2..]
        .iter()
        .filter(|x| x.valid)
        .flat_map(|x| x.data)
        .collect();
    let size = usize::from(bytes[0] & 0x3F) * 2;
    assert_eq!(bytes.len(), size);
    assert_eq!(bytes[1] >> 5, 3); // service 3
    let block = usize::from(bytes[1] & 0x1F);
    assert!(block <= 31 && 2 + block <= size);
    assert_eq!(bytes[2], 0x98); // DefineWindow 0 first
}

#[test]
fn packets_are_framed_and_numbered() {
    let mut m = CcMux::new(FrameRate::Fps60);
    for s in 1..=3 {
        m.add_708(Cc708Encoder::new(s).unwrap_or_else(|| unreachable!()));
        m.push_text_708(s, "A LINE OF TEXT");
    }
    let mut number = 0;
    while !m.is_idle() {
        let t = m.next_frame();
        assert_eq!(t.len(), 10);
        let k = t[2..].iter().take_while(|x| x.valid).count();
        for (i, x) in t[2..].iter().enumerate() {
            let first = i == 0 && k > 0;
            assert_eq!(x.cc_type == CcType::DtvccStart, first);
            assert_eq!(x.cc_type == CcType::DtvccData, !first);
            if i >= k {
                assert_eq!((x.valid, x.data), (false, [0, 0]));
            }
        }
        if k > 0 {
            assert_eq!(t[2].data[0], number % 4 * 64 + k as u8);
            number += 1;
        }
    }
    assert!(number > 4);
}

#[test]
fn borders_stand_before_lines() {
    let text = "THE FIRST LINE OF A LONGER TEXT THAT WRAPS\nAND \u{e9} ANOTHER";
    let mut e = Cc608Encoder::with_mode(Channel::Cc1, Mode608::RollUp(2));
    for round in 0..2 {
        e.push_text(text);
        let lines = wrap(&cells_608(text), COLUMNS).len();
        assert_eq!(lines, 3);
        let mut borders = Vec::new();
        let mut sent = 0;
        while e.pending() > 0 {
            let here = e.at_boundary();
            let p = e.next_pair().unwrap();
            if here {
                borders.push(sent);
                assert_eq!([p[0] & 0x7F, p[1] & 0x7F], [0x14, 0x25]);
            }
            sent += 1;
        }
        assert!(e.at_boundary());
        assert_eq!((borders.len(), borders[0]), (lines, 0), "round {round}");
        assert_eq!(e.dropped_pairs(), 0);
    }
}

#[test]
fn many_services_all_drain() {
    let mut m = CcMux::new(FrameRate::Fps59_94);
    for s in 1..=6 {
        m.add_708(Cc708Encoder::new(s).unwrap_or_else(|| unreachable!()));
        m.push_text_708(
            s,
            "Some text for every service, long enough to wrap onto two lines.",
        );
    }
    let mut seq = Vec::new();
    for _ in 0..500 {
        let t = m.next_frame();
        if let Some(s) = t.iter().find(|x| x.cc_type == CcType::DtvccStart) {
            seq.push(s.data[0] >> 6);
        }
    }
    assert!(m.is_idle());
    assert!(seq.windows(2).all(|w| w[1] == (w[0] + 1) % 4));
}

fn wrap_str(s: &str, w: usize) -> Vec<String> {
    wrap(&cells_708(s), w)
        .into_iter()
        .map(|l| l.into_iter().flatten().map(char::from).collect())
        .collect()
}

#[test]
fn wrapping() {
    assert_eq!(wrap_str("aa bb cc", 5), ["aa bb", "cc"]);
    assert_eq!(wrap_str("  aa   bb  ", 32), ["aa bb"]);
    assert_eq!(wrap_str("abcdefgh", 3), ["abc", "def", "gh"]);
    assert_eq!(wrap_str("a\n\nb", 32), ["a", "b"]);
    assert!(wrap_str("", 32).is_empty());
    assert!(wrap_str("   \n ", 32).is_empty());
}

#[test]
fn every_latin1_letter_maps_in_608() {
    // Every Latin-1 letter used by es/fr/de/pt maps to something printable.
    for c in "áéíóúñÑüÜ¿¡àâçèéêëîïôùûÿœæÀÂÇÈÉÊËÎÏÔÙÛŸŒÆäöüßÄÖÜãõÃÕ".chars() {
        let cells = cells_608(&c.to_string());
        assert!(!cells.is_empty(), "{c}");
    }
}

#[test]
fn unsupported_is_dropped() {
    assert!(cells_608("😀日本").is_empty());
    assert!(cells_708("😀日本").is_empty());
}
