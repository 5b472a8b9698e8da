//! Input and output URLs: which kind of endpoint they are, how the media
//! framework is given them, and how they are shown in logs without secrets.
use vstd::prelude::*;

use crate::chars::{
    char_lists, cut, fields, find, find_in, from_chars, join, join_with, same_chars, split,
    split_once, starts_with, to_chars,
};
use crate::decimal::{decimal, push_decimal, push_text};

verus! {

#[derive(Clone, Copy, Debug, PartialEq, Eq, Structural)]
pub enum InputKind {
    /// `srt://host:port?mode=caller|listener&...`
    Srt,
    /// `udp://host:port` (unicast or multicast group), raw MPEG-TS.
    Udp,
    /// `rtp://host:port`: MPEG-TS in RTP (payload type 33), unicast or multicast.
    Rtp,
}

#[derive(Clone, Copy, Debug, PartialEq, Eq, Structural)]
pub enum OutputKind {
    Srt,
    Udp,
    /// `rtmp://` or `rtmps://`: FLV (H.264 + AAC) to an RTMP server.
    Rtmp,
}

/// The scheme of a URL: what stands before `://`, nothing if that is missing.
pub open spec fn scheme_of(url: Seq<char>) -> Seq<char> {
    match cut(url, "://"@) {
        Some(p) => p.0,
        None => seq![],
    }
}

/// The kind of an input URL.
pub open spec fn input_of(url: Seq<char>) -> Option<InputKind> {
    let s = scheme_of(url);
    if s == "srt"@ {
        Some(InputKind::Srt)
    } else if s == "udp"@ {
        Some(InputKind::Udp)
    } else if s == "rtp"@ {
        Some(InputKind::Rtp)
    } else {
        None
    }
}

/// The kind of an output URL.
pub open spec fn output_of(url: Seq<char>) -> Option<OutputKind> {
    let s = scheme_of(url);
    if s == "srt"@ {
        Some(OutputKind::Srt)
    } else if s == "udp"@ {
        Some(OutputKind::Udp)
    } else if s == "rtmp"@ || s == "rtmps"@ {
        Some(OutputKind::Rtmp)
    } else {
        None
    }
}

/// Whether the URL's query sets a latency.
pub open spec fn has_latency(url: Seq<char>) -> bool {
    cut(url, "?"@) matches Some(p) && exists|k: int|
        0 <= k < fields(p.1, '&').len() && "latency="@.is_prefix_of(#[trigger] fields(p.1, '&')[k])
}

/// The URL with a latency in its query: its own, or the one given.
pub open spec fn with_latency(url: Seq<char>, latency_ms: u32) -> Seq<char> {
    if has_latency(url) {
        url
    } else {
        url + (if find_in(url, "?"@) is Some {
            "&latency="@
        } else {
            "?latency="@
        }) + decimal(latency_ms as nat)
    }
}

/// A URL without its query.
pub open spec fn without_query(url: Seq<char>) -> Seq<char> {
    match cut(url, "?"@) {
        Some(p) => p.0,
        None => url,
    }
}

/// The URL without its query and with the scheme `udp`.
pub open spec fn as_udp(url: Seq<char>) -> Seq<char> {
    match cut(without_query(url), "://"@) {
        Some(p) => "udp://"@ + p.1,
        None => without_query(url),
    }
}

/// The key names a secret.
pub open spec fn secret_key(key: Seq<char>) -> bool {
    key == "passphrase"@ || key == "streamid"@ || key == "key"@
}

/// A query parameter with its value hidden if it is a secret.
pub open spec fn hidden(param: Seq<char>) -> Seq<char> {
    match cut(param, "="@) {
        Some(p) => if secret_key(p.0) {
            p.0 + "=***"@
        } else {
            param
        },
        None => param,
    }
}

/// A URL up to its query with the stream key hidden: the last path segment of an
/// RTMP URL that has a host, an application and a key.
pub open spec fn base_hidden(base: Seq<char>) -> Seq<char> {
    match cut(base, "://"@) {
        Some(p) => {
            let parts = fields(p.1, '/');
            if (p.0 == "rtmp"@ || p.0 == "rtmps"@) && parts.len() > 2 {
                p.0 + "://"@ + join_with(parts.drop_last(), '/') + "/***"@
            } else {
                base
            }
        },
        None => base,
    }
}

/// The URL with its secrets hidden.
pub open spec fn redacted(url: Seq<char>) -> Seq<char> {
    match cut(url, "?"@) {
        Some(p) => base_hidden(p.0).push('?') + join_with(
            fields(p.1, '&').map_values(|f: Seq<char>| hidden(f)),
            '&',
        ),
        None => base_hidden(url),
    }
}

fn scheme(url: &[char]) -> (r: Vec<char>)
    ensures
        r@ == scheme_of(url@),
{
    let sep = to_chars("://");
    match split_once(url, sep.as_slice()) {
        Some((head, _)) => head,
        None => {
            let r: Vec<char> = Vec::new();
            assert(r@ =~= seq![]);
            r
        },
    }
}

fn is_text(s: &[char], t: &str) -> (r: bool)
    ensures
        r == (s@ == t@),
{
    let u = to_chars(t);
    same_chars(s, u.as_slice())
}

fn refusal(what: &str, url: &str) -> (r: String)
    ensures
        r@ == what@ + redacted(url@),
{
    let mut s = String::new();
    push_text(&mut s, what);
    let shown = redact(url);
    push_text(&mut s, shown.as_str());
    assert(s@ =~= what@ + redacted(url@));
    s
}

/// The kind of an input URL, or why it is none.
pub fn input_kind(url: &str) -> (r: Result<InputKind, String>)
    ensures
        r is Ok == input_of(url@) is Some,
        r matches Ok(kind) ==> Some(kind) == input_of(url@),
        r matches Err(e) ==> e@ == "unsupported input URL "@ + redacted(url@),
{
    let all = to_chars(url);
    let s = scheme(all.as_slice());
    if is_text(s.as_slice(), "srt") {
        Ok(InputKind::Srt)
    } else if is_text(s.as_slice(), "udp") {
        Ok(InputKind::Udp)
    } else if is_text(s.as_slice(), "rtp") {
        Ok(InputKind::Rtp)
    } else {
        Err(refusal("unsupported input URL ", url))
    }
}

/// The kind of an output URL, or why it is none.
pub fn output_kind(url: &str) -> (r: Result<OutputKind, String>)
    ensures
        r is Ok == output_of(url@) is Some,
        r matches Ok(kind) ==> Some(kind) == output_of(url@),
        r matches Err(e) ==> e@ == "unsupported output URL "@ + redacted(url@),
{
    let all = to_chars(url);
    let s = scheme(all.as_slice());
    if is_text(s.as_slice(), "srt") {
        Ok(OutputKind::Srt)
    } else if is_text(s.as_slice(), "udp") {
        Ok(OutputKind::Udp)
    } else if is_text(s.as_slice(), "rtmp") || is_text(s.as_slice(), "rtmps") {
        Ok(OutputKind::Rtmp)
    } else {
        Err(refusal("unsupported output URL ", url))
    }
}

fn sets_latency(url: &[char]) -> (r: bool)
    ensures
        r == has_latency(url@),
{
    let mark = to_chars("?");
    match split_once(url, mark.as_slice()) {
        Some((_, query)) => {
            let list = split(query.as_slice(), '&');
            let ghost all = char_lists(list@);
            let key = to_chars("latency=");
            for k in 0..list.len()
                invariant
                    all == char_lists(list@),
                    all == fields(query@, '&'),
                    cut(url@, "?"@) is Some,
                    (cut(url@, "?"@)->0).1 == query@,
                    key@ == "latency="@,
                    forall|j: int| 0 <= j < k ==> !"latency="@.is_prefix_of(#[trigger] all[j]),
            {
                assert(all[k as int] == list@[k as int]@);
                if starts_with(list[k].as_slice(), key.as_slice()) {
                    assert("latency="@.is_prefix_of(fields(query@, '&')[k as int]));
                    return true;
                }
            }
            false
        },
        None => false,
    }
}

/// The URI handed to the SRT source and sink: adds `latency=<ms>` unless the URL
/// sets its own.
pub fn srt_uri(url: &str, latency_ms: u32) -> (r: String)
    ensures
        r@ == with_latency(url@, latency_ms),
{
    let all = to_chars(url);
    let mut s = String::new();
    push_text(&mut s, url);
    assert(s@ =~= url@);
    if !sets_latency(all.as_slice()) {
        let mark = to_chars("?");
        if find(all.as_slice(), mark.as_slice()).is_some() {
            push_text(&mut s, "&latency=");
        } else {
            push_text(&mut s, "?latency=");
        }
        push_decimal(&mut s, latency_ms as u64);
    }
    s
}

/// `udp://host:port` for the UDP source and sink. Query parameters (e.g. FFmpeg's
/// `pkt_size`) mean nothing there and are dropped.
pub fn udp_uri(url: &str) -> (r: String)
    ensures
        r@ == as_udp(url@),
{
    let all = to_chars(url);
    let mark = to_chars("?");
    let base = match split_once(all.as_slice(), mark.as_slice()) {
        Some((b, _)) => b,
        None => all,
    };
    let sep = to_chars("://");
    match split_once(base.as_slice(), sep.as_slice()) {
        Some((_, rest)) => {
            let mut s = String::new();
            push_text(&mut s, "udp://");
            let tail = from_chars(rest.as_slice());
            push_text(&mut s, tail.as_str());
            assert(s@ =~= "udp://"@ + rest@);
            s
        },
        None => from_chars(base.as_slice()),
    }
}

fn hide_key(base: &Vec<char>) -> (r: Vec<char>)
    ensures
        r@ == base_hidden(base@),
{
    let sep = to_chars("://");
    match split_once(base.as_slice(), sep.as_slice()) {
        Some((s, rest)) => {
            if !is_text(s.as_slice(), "rtmp") && !is_text(s.as_slice(), "rtmps") {
                return copy_all(base);
            }
            // host[:port]/app/key -> host[:port]/app/***
            let mut parts = split(rest.as_slice(), '/');
            let ghost all = char_lists(parts@);
            if parts.len() <= 2 {
                return copy_all(base);
            }
            let _ = parts.pop();
            assert(char_lists(parts@) =~= all.drop_last());
            let mut r = s;
            let ghost scheme = r@;
            r.extend_from_slice(sep.as_slice());
            assert(r@ =~= scheme + "://"@);
            let ghost head = r@;
            let kept = join(&parts, '/');
            r.extend_from_slice(kept.as_slice());
            assert(r@ =~= head + kept@);
            let ghost body = r@;
            let mask = to_chars("/***");
            r.extend_from_slice(mask.as_slice());
            assert(r@ =~= body + "/***"@);
            r
        },
        None => copy_all(base),
    }
}

fn copy_all(s: &Vec<char>) -> (r: Vec<char>)
    ensures
        r@ == s@,
{
    let r = s.clone();
    assert(r@ =~= s@);
    r
}

fn hide_value(param: &Vec<char>) -> (r: Vec<char>)
    ensures
        r@ == hidden(param@),
{
    let sign = to_chars("=");
    match split_once(param.as_slice(), sign.as_slice()) {
        Some((k, _)) => {
            if is_text(k.as_slice(), "passphrase") || is_text(k.as_slice(), "streamid") || is_text(
                k.as_slice(),
                "key",
            ) {
                let mut r = k;
                let ghost key = r@;
                let mask = to_chars("=***");
                r.extend_from_slice(mask.as_slice());
                assert(r@ =~= key + "=***"@);
                r
            } else {
                copy_all(param)
            }
        },
        None => copy_all(param),
    }
}

/// The URL with secrets removed, for logs and status: SRT `passphrase` and
/// `streamid` values, and the last path segment (stream key) of RTMP URLs.
pub fn redact(url: &str) -> (r: String)
    ensures
        r@ == redacted(url@),
{
    let all = to_chars(url);
    let mark = to_chars("?");
    match split_once(all.as_slice(), mark.as_slice()) {
        Some((base, query)) => {
            let mut out = hide_key(&base);
            out.push('?');
            let ghost head = out@;
            let list = split(query.as_slice(), '&');
            let ghost params = char_lists(list@);
            let ghost want = params.map_values(|f: Seq<char>| hidden(f));
            let mut shown: Vec<Vec<char>> = Vec::new();
            assert(char_lists(shown@) =~= want.take(0));
            for i in 0..list.len()
                invariant
                    params == char_lists(list@),
                    want == params.map_values(|f: Seq<char>| hidden(f)),
                    char_lists(shown@) == want.take(i as int),
            {
                assert(params[i as int] == list@[i as int]@);
                let ghost before = char_lists(shown@);
                let p = hide_value(&list[i]);
                shown.push(p);
                assert(char_lists(shown@) =~= before.push(p@));
                assert(want.take(i + 1) =~= before.push(want[i as int]));
            }
            assert(want.take(want.len() as int) =~= want);
            let q = join(&shown, '&');
            out.extend_from_slice(q.as_slice());
            assert(out@ =~= head + q@);
            from_chars(out.as_slice())
        },
        None => from_chars(hide_key(&all).as_slice()),
    }
}

} // verus!
