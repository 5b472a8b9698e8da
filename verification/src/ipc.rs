//! Framing between the main process and its workers (speech recognition,
//! translation).
//!
//! Each frame is a little-endian `u32` length, a kind byte and a payload; the
//! length counts the kind byte and the payload. Kinds:
//! - [`KIND_JSON`]: one [`Message`] as JSON.
//! - [`KIND_PCM`]: audio, a little-endian `u64` start in milliseconds and then
//!   16 kHz mono little-endian `i16` samples.
//!
//! Readers never trust the peer: oversized, empty or malformed frames are
//! errors, so a misbehaving worker can be restarted cleanly.
use vstd::prelude::*;
use vstd::slice::slice_subrange;

use crate::types::{Clause, Translation, Word};

verus! {

pub const KIND_JSON: u8 = 1;

pub const KIND_PCM: u8 = 2;

/// Largest frame accepted (1 MiB): about 32 s of 16 kHz audio, far above any
/// real message.
pub const MAX_FRAME: usize = 0x10_0000;

/// Control and data messages, in both directions.
#[derive(Clone, Debug, PartialEq)]
pub enum Message {
    /// First message a worker sends once its model is loaded.
    Ready { worker: String, version: String },
    /// Sent by workers at least once a second; silence means the worker is stuck.
    Heartbeat { seq: u64 },
    /// From speech recognition: newly committed words.
    Words { words: Vec<Word> },
    /// To translation: translate a clause into these languages.
    Translate { clause: Clause, langs: Vec<String> },
    /// From translation: one translation.
    Translated { translation: Translation },
    /// To a worker: finish current work and exit.
    Shutdown,
    /// From a worker: a recoverable problem worth logging.
    Error { message: String },
}

/// A frame taken apart. A message is still its JSON text.
#[derive(Clone, Debug, PartialEq, Eq)]
pub enum Frame {
    Message(Vec<u8>),
    Pcm { start_ms: u64, samples: Vec<i16> },
}

/// What a frame holds.
pub enum Content {
    Message(Seq<u8>),
    Pcm(u64, Seq<i16>),
}

impl View for Frame {
    type V = Content;

    open spec fn view(&self) -> Content {
        match *self {
            Frame::Message(json) => Content::Message(json@),
            Frame::Pcm { start_ms, samples } => Content::Pcm(start_ms, samples@),
        }
    }
}

/// Why a frame could not be read or written.
#[derive(Clone, Copy, Debug, PartialEq, Eq)]
pub enum FrameError {
    /// The peer closed the stream.
    Closed,
    /// The stream ends inside the frame.
    Truncated,
    /// The frame's length is outside `1..=MAX_FRAME`.
    BadLength(usize),
    /// The frame's kind is unknown.
    BadKind(u8),
    /// The PCM frame is malformed.
    BadPcm,
}

impl FrameError {
    /// The frame came whole but was not understood: the stream goes on behind it.
    pub fn is_soft(&self) -> (r: bool)
        ensures
            r == (self is BadKind || self is BadPcm),
    {
        match self {
            FrameError::BadKind(_) | FrameError::BadPcm => true,
            FrameError::Closed | FrameError::Truncated | FrameError::BadLength(_) => false,
        }
    }
}

/// The low bytes of a number, lowest first.
pub open spec fn le(n: nat, count: nat) -> Seq<u8>
    decreases count,
{
    if count == 0 {
        seq![]
    } else {
        seq![(n % 256) as u8] + le(n / 256, (count - 1) as nat)
    }
}

/// The number that bytes spell, lowest first.
pub open spec fn le_value(bytes: Seq<u8>) -> nat
    decreases bytes.len(),
{
    if bytes.len() == 0 {
        0
    } else {
        bytes[0] as nat + 256 * le_value(bytes.drop_first())
    }
}

/// A sample's bits as a number.
pub open spec fn sample_bits(x: i16) -> nat {
    (if x < 0 {
        x + 0x1_0000
    } else {
        x as int
    }) as nat
}

/// The sample with the given bits.
pub open spec fn sample_of(bits: nat) -> i16 {
    (if bits >= 0x8000 {
        bits - 0x1_0000
    } else {
        bits as int
    }) as i16
}

/// The bytes of samples, two each.
pub open spec fn sample_bytes(samples: Seq<i16>) -> Seq<u8>
    decreases samples.len(),
{
    if samples.len() == 0 {
        seq![]
    } else {
        sample_bytes(samples.drop_last()) + le(sample_bits(samples.last()), 2)
    }
}

/// The payload of an audio frame.
pub open spec fn pcm_payload(start_ms: u64, samples: Seq<i16>) -> Seq<u8> {
    le(start_ms as nat, 8) + sample_bytes(samples)
}

/// The samples in a payload behind the start time.
pub open spec fn samples_in(body: Seq<u8>) -> Seq<i16> {
    Seq::new(body.len() / 2, |i: int| sample_of(le_value(body.subrange(2 * i, 2 * i + 2))))
}

/// A frame's bytes.
pub open spec fn framed(kind: u8, payload: Seq<u8>) -> Seq<u8> {
    le(payload.len() + 1, 4) + seq![kind] + payload
}

/// What a frame's kind and payload stand for.
pub open spec fn content(kind: u8, payload: Seq<u8>) -> Result<Content, FrameError> {
    if kind == KIND_JSON {
        Ok(Content::Message(payload))
    } else if kind == KIND_PCM {
        if payload.len() < 8 || payload.len() % 2 != 0 {
            Err(FrameError::BadPcm)
        } else {
            Ok(Content::Pcm(le_value(payload.take(8)) as u64, samples_in(payload.skip(8))))
        }
    } else {
        Err(FrameError::BadKind(kind))
    }
}

/// The first frame of a stream, and how many bytes it takes.
pub open spec fn first_frame(data: Seq<u8>) -> Result<(Content, int), FrameError> {
    if data.len() < 4 {
        Err(FrameError::Closed)
    } else {
        let len = le_value(data.take(4)) as int;
        if len == 0 || len > MAX_FRAME {
            Err(FrameError::BadLength(len as usize))
        } else if data.len() < 4 + len {
            Err(FrameError::Truncated)
        } else {
            match content(data[4], data.subrange(5, 4 + len)) {
                Ok(c) => Ok((c, 4 + len)),
                Err(e) => Err(e),
            }
        }
    }
}

/// A number's bytes are as many as asked for.
pub proof fn lemma_le_len(n: nat, count: nat)
    ensures
        le(n, count).len() == count,
    decreases count,
{
    if count > 0 {
        lemma_le_len(n / 256, (count - 1) as nat);
    }
}

/// 256 to the power of `count`.
pub open spec fn base_power(count: nat) -> nat
    decreases count,
{
    if count == 0 {
        1
    } else {
        256 * base_power((count - 1) as nat)
    }
}

/// A number that fits is read back as it was written.
pub proof fn law_numbers_read_back(n: nat, count: nat)
    requires
        n < base_power(count),
    ensures
        le_value(le(n, count)) == n,
    decreases count,
{
    if count > 0 {
        let rest = le(n / 256, (count - 1) as nat);
        let p = base_power((count - 1) as nat);
        assert(n / 256 < p) by (nonlinear_arith)
            requires
                n < 256 * p,
        ;
        law_numbers_read_back(n / 256, (count - 1) as nat);
        assert(le(n, count).drop_first() =~= rest);
    }
}

proof fn lemma_le_value_bound(bytes: Seq<u8>)
    ensures
        le_value(bytes) < base_power(bytes.len()),
    decreases bytes.len(),
{
    if bytes.len() > 0 {
        lemma_le_value_bound(bytes.drop_first());
    }
}

fn push_le(out: &mut Vec<u8>, n: u64, count: usize)
    ensures
        final(out)@ == old(out)@ + le(n as nat, count as nat),
{
    let mut left: usize = count;
    let mut rest: u64 = n;
    assert(out@ + le(n as nat, count as nat) =~= old(out)@ + le(n as nat, count as nat));
    while left > 0
        invariant
            out@ + le(rest as nat, left as nat) == old(out)@ + le(n as nat, count as nat),
        decreases left,
    {
        let ghost before = out@;
        out.push((rest % 256) as u8);
        assert(out@ + le((rest / 256) as nat, (left - 1) as nat) =~= before + le(
            rest as nat,
            left as nat,
        ));
        rest = rest / 256;
        left = left - 1;
    }
    assert(out@ + le(rest as nat, 0) =~= out@);
}

/// Reads a little-endian number of at most eight bytes.
fn read_le(bytes: &[u8]) -> (r: u64)
    requires
        bytes@.len() <= 8,
    ensures
        r == le_value(bytes@),
{
    let mut i: usize = bytes.len();
    let mut value: u64 = 0;
    assert(bytes@.skip(bytes@.len() as int) =~= seq![]);
    while i > 0
        invariant
            i <= bytes@.len() <= 8,
            value == le_value(bytes@.skip(i as int)),
        decreases i,
    {
        i -= 1;
        proof {
            let s = bytes@.skip(i as int);
            assert(s.drop_first() =~= bytes@.skip(i + 1));
            lemma_le_value_bound(s);
            assert(base_power(s.len()) <= 0x1_0000_0000_0000_0000) by {
                reveal_with_fuel(base_power, 9);
            }
        }
        value = bytes[i] as u64 + 256 * value;
    }
    assert(bytes@.skip(0) =~= bytes@);
    value
}

/// Appends a frame to a stream, or nothing if it is too long.
pub fn write_frame(out: &mut Vec<u8>, kind: u8, payload: &[u8]) -> (r: Result<(), FrameError>)
    requires
        payload@.len() < usize::MAX,
    ensures
        payload@.len() + 1 > MAX_FRAME ==> r == Err::<(), FrameError>(
            FrameError::BadLength((payload@.len() + 1) as usize),
        ) && final(out)@ == old(out)@,
        payload@.len() + 1 <= MAX_FRAME ==> r is Ok && final(out)@ == old(out)@ + framed(
            kind,
            payload@,
        ),
{
    let len: usize = payload.len() + 1;
    if len > MAX_FRAME {
        return Err(FrameError::BadLength(len));
    }
    push_le(out, len as u64, 4);
    out.push(kind);
    out.extend_from_slice(payload);
    assert(out@ =~= old(out)@ + framed(kind, payload@));
    Ok(())
}

/// Appends a message, given as JSON, to a stream.
pub fn write_message(out: &mut Vec<u8>, json: &[u8]) -> (r: Result<(), FrameError>)
    requires
        json@.len() < usize::MAX,
    ensures
        json@.len() + 1 > MAX_FRAME ==> r == Err::<(), FrameError>(
            FrameError::BadLength((json@.len() + 1) as usize),
        ) && final(out)@ == old(out)@,
        json@.len() + 1 <= MAX_FRAME ==> r is Ok && final(out)@ == old(out)@ + framed(
            KIND_JSON,
            json@,
        ),
{
    write_frame(out, KIND_JSON, json)
}

/// Appends audio to a stream.
pub fn write_pcm(out: &mut Vec<u8>, start_ms: u64, samples: &[i16]) -> (r: Result<(), FrameError>)
    requires
        9 + 2 * samples@.len() <= usize::MAX,
    ensures
        9 + 2 * samples@.len() > MAX_FRAME ==> r == Err::<(), FrameError>(
            FrameError::BadLength((9 + 2 * samples@.len()) as usize),
        ) && final(out)@ == old(out)@,
        9 + 2 * samples@.len() <= MAX_FRAME ==> r is Ok && final(out)@ == old(out)@ + framed(
            KIND_PCM,
            pcm_payload(start_ms, samples@),
        ),
{
    let mut payload: Vec<u8> = Vec::new();
    push_le(&mut payload, start_ms, 8);
    let mut i: usize = 0;
    proof {
        lemma_le_len(start_ms as nat, 8);
        assert(payload@ =~= pcm_payload(start_ms, samples@.take(0)));
    }
    while i < samples.len()
        invariant
            i <= samples@.len(),
            payload@ == pcm_payload(start_ms, samples@.take(i as int)),
            payload@.len() == 8 + 2 * i,
        decreases samples.len() - i,
    {
        let x = samples[i];
        let bits: u64 = if x < 0 {
            (x as i32 + 0x1_0000) as u64
        } else {
            x as u64
        };
        push_le(&mut payload, bits, 2);
        proof {
            let next = samples@.take(i + 1);
            assert(next.drop_last() =~= samples@.take(i as int));
            lemma_le_len(bits as nat, 2);
            assert(payload@ =~= pcm_payload(start_ms, next));
        }
        i += 1;
    }
    assert(samples@.take(samples@.len() as int) =~= samples@);
    write_frame(out, KIND_PCM, payload.as_slice())
}

/// The length that a frame's first four bytes announce.
pub fn frame_length(head: &[u8]) -> (r: Result<usize, FrameError>)
    requires
        head@.len() == 4,
    ensures
        ({
            let len = le_value(head@);
            r == if len == 0 || len > MAX_FRAME {
                Err(FrameError::BadLength(len as usize))
            } else {
                Ok(len as usize)
            }
        }),
{
    let len: u64 = read_le(head);
    proof {
        lemma_le_value_bound(head@);
        reveal_with_fuel(base_power, 5);
    }
    let n: usize = len as usize;
    if n == 0 || n > MAX_FRAME {
        Err(FrameError::BadLength(n))
    } else {
        Ok(n)
    }
}

fn decode_pcm(payload: &[u8]) -> (r: Result<Frame, FrameError>)
    ensures
        match r {
            Ok(f) => content(KIND_PCM, payload@) == Ok::<Content, FrameError>(f@),
            Err(e) => content(KIND_PCM, payload@) == Err::<Content, FrameError>(e),
        },
{
    if payload.len() < 8 || payload.len() % 2 != 0 {
        return Err(FrameError::BadPcm);
    }
    let head = slice_subrange(payload, 0, 8);
    let start_ms = read_le(head);
    let ghost body = payload@.skip(8);
    let mut samples: Vec<i16> = Vec::new();
    let mut i: usize = 8;
    while i < payload.len()
        invariant
            8 <= i <= payload@.len(),
            payload@.len() % 2 == 0,
            body == payload@.skip(8),
            i == 8 + 2 * samples@.len(),
            samples@ == samples_in(body).take(samples@.len() as int),
        decreases payload.len() - i,
    {
        let bits = read_le(slice_subrange(payload, i, i + 2));
        proof {
            lemma_le_value_bound(payload@.subrange(i as int, i + 2));
            reveal_with_fuel(base_power, 3);
        }
        let x: i16 = if bits >= 0x8000 {
            (bits as i32 - 0x1_0000) as i16
        } else {
            bits as i16
        };
        let ghost before = samples@;
        samples.push(x);
        proof {
            let k = before.len() as int;
            assert(body.subrange(2 * k, 2 * k + 2) =~= payload@.subrange(i as int, i + 2));
            assert(samples@ =~= samples_in(body).take(k + 1));
        }
        i += 2;
    }
    proof {
        lemma_le_value_bound(payload@.take(8));
        assert(payload@.take(8) =~= payload@.subrange(0, 8));
        assert(samples@ =~= samples_in(body));
    }
    Ok(Frame::Pcm { start_ms, samples })
}

/// Takes a frame's kind and payload apart.
pub fn decode_frame(kind: u8, payload: &[u8]) -> (r: Result<Frame, FrameError>)
    ensures
        match r {
            Ok(f) => content(kind, payload@) == Ok::<Content, FrameError>(f@),
            Err(e) => content(kind, payload@) == Err::<Content, FrameError>(e),
        },
{
    if kind == KIND_JSON {
        let mut json: Vec<u8> = Vec::new();
        json.extend_from_slice(payload);
        assert(json@ =~= payload@);
        Ok(Frame::Message(json))
    } else if kind == KIND_PCM {
        decode_pcm(payload)
    } else {
        Err(FrameError::BadKind(kind))
    }
}

/// Reads the first frame of a stream, and how many bytes it takes. A stream
/// that ends before a frame's length is closed.
pub fn read_frame(data: &[u8]) -> (r: Result<(Frame, usize), FrameError>)
    ensures
        match r {
            Ok((f, n)) => first_frame(data@) == Ok::<(Content, int), FrameError>((f@, n as int)),
            Err(e) => first_frame(data@) == Err::<(Content, int), FrameError>(e),
        },
{
    if data.len() < 4 {
        return Err(FrameError::Closed);
    }
    let head = slice_subrange(data, 0, 4);
    assert(head@ =~= data@.take(4));
    match frame_length(head) {
        Err(e) => Err(e),
        Ok(len) => {
            if data.len() - 4 < len {
                return Err(FrameError::Truncated);
            }
            match decode_frame(data[4], slice_subrange(data, 5, 4 + len)) {
                Ok(f) => Ok((f, 4 + len)),
                Err(e) => Err(e),
            }
        },
    }
}

/// A frame that was written is the first one read, whatever follows it, and
/// what follows is left: frames are read in the order they were written.
pub proof fn law_frames_read_back(kind: u8, payload: Seq<u8>, rest: Seq<u8>)
    requires
        payload.len() + 1 <= 0x10_0000,
    ensures
        ({
            let data = framed(kind, payload) + rest;
            let n = framed(kind, payload).len() as int;
            &&& data.skip(n) == rest
            &&& first_frame(data) == match content(kind, payload) {
                Ok(c) => Ok((c, n)),
                Err(e) => Err(e),
            }
        }),
{
    let n = payload.len() + 1;
    let data = framed(kind, payload) + rest;
    lemma_le_len(n, 4);
    assert(base_power(4) == 0x1_0000_0000) by {
        reveal_with_fuel(base_power, 5);
    }
    law_numbers_read_back(n, 4);
    assert(data.take(4) =~= le(n, 4));
    assert(data[4] == kind);
    assert(data.subrange(5, 4 + n as int) =~= payload);
    assert(data.skip(4 + n as int) =~= rest);
}

proof fn lemma_samples(samples: Seq<i16>)
    ensures
        sample_bytes(samples).len() == 2 * samples.len(),
        samples_in(sample_bytes(samples)) == samples,
    decreases samples.len(),
{
    let bytes = sample_bytes(samples);
    if samples.len() > 0 {
        let init = samples.drop_last();
        lemma_samples(init);
        let k = init.len() as int;
        let tail = le(sample_bits(samples.last()), 2);
        lemma_le_len(sample_bits(samples.last()), 2);
        reveal_with_fuel(base_power, 3);
        law_numbers_read_back(sample_bits(samples.last()), 2);
        assert forall|i: int| 0 <= i < samples.len() implies samples_in(bytes)[i] == samples[i] by {
            if i < k {
                assert(bytes.subrange(2 * i, 2 * i + 2) =~= sample_bytes(init).subrange(
                    2 * i,
                    2 * i + 2,
                ));
                assert(samples_in(sample_bytes(init))[i] == init[i]);
            } else {
                assert(bytes.subrange(2 * i, 2 * i + 2) =~= tail);
            }
        }
    }
    assert(samples_in(bytes) =~= samples);
}

/// Audio that was written is read back: the same start, the same samples.
pub proof fn law_pcm_reads_back(start_ms: u64, samples: Seq<i16>)
    ensures
        content(KIND_PCM, pcm_payload(start_ms, samples)) == Ok::<Content, FrameError>(
            Content::Pcm(start_ms, samples),
        ),
{
    let payload = pcm_payload(start_ms, samples);
    lemma_le_len(start_ms as nat, 8);
    lemma_samples(samples);
    assert(base_power(8) == 0x1_0000_0000_0000_0000) by {
        reveal_with_fuel(base_power, 9);
    }
    law_numbers_read_back(start_ms as nat, 8);
    assert(payload.take(8) =~= le(start_ms as nat, 8));
    assert(payload.skip(8) =~= sample_bytes(samples));
}

/// The bytes of a frame that holds `c`.
pub open spec fn frame_of(c: Content) -> Seq<u8> {
    match c {
        Content::Message(json) => framed(KIND_JSON, json),
        Content::Pcm(start_ms, samples) => framed(KIND_PCM, pcm_payload(start_ms, samples)),
    }
}

/// What is not too long to be written.
pub open spec fn fits_frame(c: Content) -> bool {
    match c {
        Content::Message(json) => json.len() + 1 <= MAX_FRAME,
        Content::Pcm(start_ms, samples) => 9 + 2 * samples.len() <= MAX_FRAME,
    }
}

/// The bytes of frames, one after the other.
pub open spec fn frames_of(list: Seq<Content>) -> Seq<u8>
    decreases list.len(),
{
    if list.len() == 0 {
        seq![]
    } else {
        frame_of(list[0]) + frames_of(list.drop_first())
    }
}

/// All that is read from a stream, one frame after the other, and the error that
/// ends it.
pub open spec fn all_read(data: Seq<u8>) -> (Seq<Content>, FrameError)
    decreases data.len(),
{
    match first_frame(data) {
        Ok((c, n)) => if 0 < n <= data.len() {
            let rest = all_read(data.skip(n));
            (seq![c] + rest.0, rest.1)
        } else {
            (seq![], FrameError::Closed)
        },
        Err(e) => (seq![], e),
    }
}

/// What is written as a frame is read back as it was, whatever follows it, and
/// the reader stands at the first byte behind it. A stream with nothing left is
/// closed.
pub proof fn law_written_is_read(c: Content, rest: Seq<u8>)
    requires
        fits_frame(c),
    ensures
        first_frame(frame_of(c) + rest) == Ok::<(Content, int), FrameError>(
            (c, frame_of(c).len() as int),
        ),
        (frame_of(c) + rest).skip(frame_of(c).len() as int) == rest,
        frame_of(c).len() > 0,
        first_frame(seq![]) == Err::<(Content, int), FrameError>(FrameError::Closed),
{
    match c {
        Content::Message(json) => {
            law_frames_read_back(KIND_JSON, json, rest);
        },
        Content::Pcm(start_ms, samples) => {
            lemma_le_len(start_ms as nat, 8);
            lemma_samples(samples);
            law_pcm_reads_back(start_ms, samples);
            law_frames_read_back(KIND_PCM, pcm_payload(start_ms, samples), rest);
        },
    }
}

/// Frames are read in the order they were written, all of them, and the end of
/// the stream behind them is a clean one.
pub proof fn law_frames_are_read_in_sequence(list: Seq<Content>)
    requires
        forall|k: int| 0 <= k < list.len() ==> fits_frame(#[trigger] list[k]),
    ensures
        all_read(frames_of(list)) == (list, FrameError::Closed),
    decreases list.len(),
{
    if list.len() == 0 {
        assert(all_read(frames_of(list)).0 =~= list);
    } else {
        let rest = list.drop_first();
        assert forall|k: int| 0 <= k < rest.len() implies fits_frame(#[trigger] rest[k]) by {
            assert(rest[k] == list[k + 1]);
        }
        law_frames_are_read_in_sequence(rest);
        law_written_is_read(list[0], frames_of(rest));
        assert(seq![list[0]] + rest =~= list);
    }
}

} // verus!
