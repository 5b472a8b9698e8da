//! Caption lanes: one encoder track per configured language.
use vstd::prelude::*;

use crate::config::{CaptionMode, Captions, Cc608, Language};
use crate::decimal::{decimal, push_decimal, push_text};

verus! {

/// One caption track.
#[derive(Clone, Debug, PartialEq, Eq)]
pub enum TrackCfg {
    /// CEA-608 alone.
    Cea608 {
        /// 0 = CC1 (field 1), 1 = CC3 (field 2).
        field: u8,
        /// `pop-on`, `paint-on`, `roll-up2`, `roll-up3`, `roll-up4`.
        mode: String,
    },
    /// CEA-708, with optional 608 compatibility bytes on CC1 or CC3.
    Cea708 {
        service: u32,
        /// 0 = none, 1 = CC1, 3 = CC3.
        cea608_channel: u32,
        /// `pop-on`, `paint-on`, `roll-up`.
        mode: String,
        roll_up_rows: u32,
    },
}

/// What a track is set to.
pub enum Track {
    Cea608 { field: u8, mode: Seq<char> },
    Cea708 { service: u32, channel: u32, mode: Seq<char>, rows: u32 },
}

impl View for TrackCfg {
    type V = Track;

    open spec fn view(&self) -> Track {
        match *self {
            TrackCfg::Cea608 { field, mode } => Track::Cea608 { field, mode: mode@ },
            TrackCfg::Cea708 { service, cea608_channel, mode, roll_up_rows } => Track::Cea708 {
                service,
                channel: cea608_channel,
                mode: mode@,
                rows: roll_up_rows,
            },
        }
    }
}

/// One configured caption lane.
#[derive(Clone, Debug, PartialEq, Eq)]
pub struct LaneSpec {
    pub lang: String,
    pub track: TrackCfg,
}

/// A lane's language and track.
pub struct Lane {
    pub lang: Seq<char>,
    pub track: Track,
}

impl View for LaneSpec {
    type V = Lane;

    open spec fn view(&self) -> Lane {
        Lane { lang: self.lang@, track: self.track@ }
    }
}

/// The lanes of a list.
pub open spec fn lane_list(list: Seq<LaneSpec>) -> Seq<Lane> {
    list.map_values(|l: LaneSpec| l@)
}

/// Roll-up rows: between two and four.
pub open spec fn roll_up_rows(rows: u8) -> u32 {
    (if rows < 2 {
        2u8
    } else if rows > 4 {
        4u8
    } else {
        rows
    }) as u32
}

/// The name of a mode on a 708 track.
pub open spec fn mode_708(mode: CaptionMode) -> Seq<char> {
    match mode {
        CaptionMode::RollUp => "roll-up"@,
        CaptionMode::PopOn => "pop-on"@,
        CaptionMode::PaintOn => "paint-on"@,
    }
}

/// The name of a mode on a 608 track.
pub open spec fn mode_608(mode: CaptionMode, rows: u32) -> Seq<char> {
    match mode {
        CaptionMode::RollUp => "roll-up"@ + decimal(rows as nat),
        CaptionMode::PopOn => "pop-on"@,
        CaptionMode::PaintOn => "paint-on"@,
    }
}

/// The track of a language, or why it has none. CC2 and CC4 are not supported
/// yet.
pub open spec fn track_of(l: Language, c: Captions) -> Result<Track, Seq<char>> {
    let rows = roll_up_rows(c.rows);
    match (l.cc608, l.cea708_service) {
        (Some(Cc608::Cc2), _) => Err(
            "language "@ + l.code@ + ": "@ + "Cc2"@
                + " is not supported yet (only CC1 and CC3)"@,
        ),
        (Some(Cc608::Cc4), _) => Err(
            "language "@ + l.code@ + ": "@ + "Cc4"@
                + " is not supported yet (only CC1 and CC3)"@,
        ),
        (cc608, Some(service)) => Ok(
            Track::Cea708 {
                service: service as u32,
                channel: match cc608 {
                    Some(Cc608::Cc1) => 1u32,
                    Some(_) => 3u32,
                    None => 0u32,
                },
                mode: mode_708(c.mode),
                rows,
            },
        ),
        (Some(channel), None) => Ok(
            Track::Cea608 {
                field: if channel == Cc608::Cc3 {
                    1u8
                } else {
                    0u8
                },
                mode: mode_608(c.mode, rows),
            },
        ),
        (None, None) => Err("language "@ + l.code@ + " has no 608 channel or 708 service"@),
    }
}

/// The lanes of the first languages, or why one has none.
pub open spec fn lanes_of(langs: Seq<Language>, c: Captions) -> Result<Seq<Lane>, Seq<char>>
    decreases langs.len(),
{
    if langs.len() == 0 {
        Ok(seq![])
    } else {
        match lanes_of(langs.drop_last(), c) {
            Err(e) => Err(e),
            Ok(list) => match track_of(langs.last(), c) {
                Err(e) => Err(e),
                Ok(track) => Ok(list.push(Lane { lang: langs.last().code@, track })),
            },
        }
    }
}

/// The lanes of all languages; there must be one.
pub open spec fn all_lanes(langs: Seq<Language>, c: Captions) -> Result<Seq<Lane>, Seq<char>> {
    if langs.len() == 0 {
        Err("no caption languages"@)
    } else {
        lanes_of(langs, c)
    }
}

fn unsupported(code: &str, channel: &str) -> (r: String)
    ensures
        r@ == "language "@ + code@ + ": "@ + channel@
            + " is not supported yet (only CC1 and CC3)"@,
{
    let mut s = String::new();
    push_text(&mut s, "language ");
    push_text(&mut s, code);
    push_text(&mut s, ": ");
    push_text(&mut s, channel);
    push_text(&mut s, " is not supported yet (only CC1 and CC3)");
    assert(s@ =~= "language "@ + code@ + ": "@ + channel@
        + " is not supported yet (only CC1 and CC3)"@);
    s
}

fn nowhere(code: &str) -> (r: String)
    ensures
        r@ == "language "@ + code@ + " has no 608 channel or 708 service"@,
{
    let mut s = String::new();
    push_text(&mut s, "language ");
    push_text(&mut s, code);
    push_text(&mut s, " has no 608 channel or 708 service");
    assert(s@ =~= "language "@ + code@ + " has no 608 channel or 708 service"@);
    s
}

fn track(l: &Language, c: &Captions) -> (r: Result<TrackCfg, String>)
    ensures
        match r {
            Ok(t) => track_of(*l, *c) == Ok::<Track, Seq<char>>(t@),
            Err(e) => track_of(*l, *c) == Err::<Track, Seq<char>>(e@),
        },
{
    let rows: u32 = if c.rows < 2 {
        2
    } else if c.rows > 4 {
        4
    } else {
        c.rows as u32
    };
    let channel: u32 = match l.cc608 {
        None => 0,
        Some(Cc608::Cc1) => 1,
        Some(Cc608::Cc3) => 3,
        Some(Cc608::Cc2) => return Err(unsupported(l.code.as_str(), "Cc2")),
        Some(Cc608::Cc4) => return Err(unsupported(l.code.as_str(), "Cc4")),
    };
    match l.cea708_service {
        Some(service) => {
            let mode = match c.mode {
                CaptionMode::RollUp => "roll-up",
                CaptionMode::PopOn => "pop-on",
                CaptionMode::PaintOn => "paint-on",
            };
            Ok(
                TrackCfg::Cea708 {
                    service: service as u32,
                    cea608_channel: channel,
                    mode: mode.to_owned(),
                    roll_up_rows: rows,
                },
            )
        },
        None => if channel > 0 {
            let mut mode = String::new();
            match c.mode {
                CaptionMode::RollUp => {
                    push_text(&mut mode, "roll-up");
                    push_decimal(&mut mode, rows as u64);
                },
                CaptionMode::PopOn => push_text(&mut mode, "pop-on"),
                CaptionMode::PaintOn => push_text(&mut mode, "paint-on"),
            }
            assert(mode@ =~= mode_608(c.mode, rows));
            let field: u8 = if channel == 3 {
                1
            } else {
                0
            };
            Ok(TrackCfg::Cea608 { field, mode })
        } else {
            Err(nowhere(l.code.as_str()))
        },
    }
}

/// Maps the configured languages to encoder tracks. A language with a 708
/// service gets a 708 track (plus 608 compatibility bytes on its channel); a
/// 608-only language gets a 608 track.
pub fn lane_specs(langs: &[Language], c: &Captions) -> (r: Result<Vec<LaneSpec>, String>)
    ensures
        match r {
            Ok(list) => all_lanes(langs@, *c) == Ok::<Seq<Lane>, Seq<char>>(lane_list(list@)),
            Err(e) => all_lanes(langs@, *c) == Err::<Seq<Lane>, Seq<char>>(e@),
        },
{
    let mut out: Vec<LaneSpec> = Vec::new();
    let mut i: usize = 0;
    assert(lane_list(out@) =~= seq![]);
    while i < langs.len()
        invariant
            i <= langs@.len(),
            lanes_of(langs@.take(i as int), *c) == Ok::<Seq<Lane>, Seq<char>>(lane_list(out@)),
        decreases langs.len() - i,
    {
        proof {
            assert(langs@.take(i + 1).drop_last() =~= langs@.take(i as int));
        }
        match track(&langs[i], c) {
            Ok(t) => {
                let ghost before = lane_list(out@);
                out.push(LaneSpec { lang: langs[i].code.clone(), track: t });
                assert(lane_list(out@) =~= before.push(Lane {
                    lang: langs@[i as int].code@,
                    track: t@,
                }));
            },
            Err(e) => {
                proof {
                    lemma_error_stays(langs@, *c, i + 1);
                }
                return Err(e);
            },
        }
        i += 1;
    }
    assert(langs@.take(langs@.len() as int) =~= langs@);
    if out.len() == 0 {
        proof {
            lemma_one_lane_each(langs@, *c);
        }
        return Err("no caption languages".to_owned());
    }
    assert(langs@.len() > 0);
    Ok(out)
}

proof fn lemma_error_stays(langs: Seq<Language>, c: Captions, n: int)
    requires
        0 <= n <= langs.len(),
        lanes_of(langs.take(n), c) is Err,
    ensures
        lanes_of(langs, c) == lanes_of(langs.take(n), c),
    decreases langs.len() - n,
{
    if n == langs.len() {
        assert(langs.take(n) =~= langs);
    } else {
        assert(langs.take(n + 1).drop_last() =~= langs.take(n));
        lemma_error_stays(langs, c, n + 1);
    }
}

proof fn lemma_one_lane_each(langs: Seq<Language>, c: Captions)
    ensures
        lanes_of(langs, c) matches Ok(list) ==> list.len() == langs.len(),
    decreases langs.len(),
{
    if langs.len() > 0 {
        lemma_one_lane_each(langs.drop_last(), c);
    }
}

/// Every language gets its own lane, in order.
pub proof fn law_one_lane_per_language(langs: Seq<Language>, c: Captions)
    ensures
        all_lanes(langs, c) matches Ok(list) ==> {
            &&& list.len() == langs.len()
            &&& forall|i: int|
                0 <= i < langs.len() ==> (#[trigger] list[i]).lang == langs[i].code@ && track_of(
                    langs[i],
                    c,
                ) == Ok::<Track, Seq<char>>(list[i].track)
        },
    decreases langs.len(),
{
    if langs.len() > 0 && lanes_of(langs, c) is Ok {
        let list = lanes_of(langs, c)->Ok_0;
        let init = langs.drop_last();
        lemma_one_lane_each(langs, c);
        law_one_lane_per_language(init, c);
        assert forall|i: int| 0 <= i < langs.len() implies (#[trigger] list[i]).lang
            == langs[i].code@ && track_of(langs[i], c) == Ok::<Track, Seq<char>>(
            list[i].track,
        ) by {
            if i < init.len() {
                assert(init[i] == langs[i]);
                assert(lanes_of(init, c)->Ok_0[i] == list[i]);
            }
        }
    }
}

} // verus!
