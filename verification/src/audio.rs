//! Tap audio: interleaved samples to mono, and the time each chunk starts at.
use vstd::prelude::*;
use vstd::slice::slice_subrange;

use crate::ipc::{le_value, samples_in};

verus! {

/// 16 kHz mono audio. `start_ms` is the input time of the first sample (the
/// audio stream's own timeline; it jumps when the source restarts).
#[derive(Clone, Debug, PartialEq, Eq)]
pub struct AudioChunk {
    pub start_ms: u64,
    pub samples: Vec<i16>,
}

/// The sum of samples.
pub open spec fn total(samples: Seq<i16>) -> int
    decreases samples.len(),
{
    if samples.len() == 0 {
        0
    } else {
        total(samples.drop_last()) + samples.last()
    }
}

/// The quotient without its fraction.
pub open spec fn whole_part(a: int, b: int) -> int {
    if a >= 0 {
        a / b
    } else {
        -((-a) / b)
    }
}

/// One sample of all channels: the one picked (silence where there is none), or
/// their average.
pub open spec fn mixed(frame: Seq<i16>, pick: Option<u32>) -> i16 {
    match pick {
        Some(c) => if c < frame.len() {
            frame[c as int]
        } else {
            0i16
        },
        None => whole_part(total(frame), frame.len() as int) as i16,
    }
}

/// Interleaved samples as mono; what does not fill a frame is left out.
pub open spec fn mono(samples: Seq<i16>, channels: nat, pick: Option<u32>) -> Seq<i16> {
    if channels <= 1 {
        samples
    } else {
        Seq::new(
            samples.len() / channels,
            |i: int| mixed(samples.subrange(i * channels, (i + 1) * channels), pick),
        )
    }
}

fn read_samples(bytes: &[u8]) -> (r: Vec<i16>)
    ensures
        r@ == samples_in(bytes@),
{
    let mut r: Vec<i16> = Vec::new();
    let n: usize = bytes.len() / 2;
    while r.len() < n
        invariant
            n == bytes@.len() / 2,
            n == bytes.len() / 2,
            r@.len() <= n,
            r@ == samples_in(bytes@).take(r@.len() as int),
        decreases n - r.len(),
    {
        let i: usize = 2 * r.len();
        let lo: u8 = bytes[i];
        let hi: u8 = bytes[i + 1];
        proof {
            let pair = bytes@.subrange(i as int, i + 2);
            assert(pair.drop_first().drop_first() =~= seq![]);
            reveal_with_fuel(le_value, 3);
            assert(le_value(pair) == lo + 256 * hi);
        }
        let bits: i32 = lo as i32 + 256 * hi as i32;
        let x: i16 = if bits >= 0x8000 {
            (bits - 0x1_0000) as i16
        } else {
            bits as i16
        };
        let ghost before = r@;
        r.push(x);
        assert(r@ =~= samples_in(bytes@).take(before.len() as int + 1));
    }
    assert(r@ =~= samples_in(bytes@));
    r
}

fn average(samples: &[i16]) -> (r: i16)
    requires
        0 < samples@.len() <= 0x1_0000,
    ensures
        r == whole_part(total(samples@), samples@.len() as int) as i16,
{
    let mut sum: i64 = 0;
    let mut i: usize = 0;
    while i < samples.len()
        invariant
            i <= samples@.len() <= 0x1_0000,
            sum == total(samples@.take(i as int)),
            -0x8000 * i <= sum <= 0x7FFF * i,
        decreases samples.len() - i,
    {
        assert(samples@.take(i + 1).drop_last() =~= samples@.take(i as int));
        sum = sum + samples[i] as i64;
        i += 1;
    }
    let n: i64 = samples.len() as i64;
    proof {
        assert(samples@.take(samples@.len() as int) =~= samples@);
        let q = whole_part(sum as int, n as int);
        if sum >= 0 {
            assert(0 <= q <= 0x7FFF) by (nonlinear_arith)
                requires
                    q == sum as int / n as int,
                    0 <= sum <= 0x7FFF * n,
                    n > 0,
            ;
        } else {
            assert(0 <= -q <= 0x8000) by (nonlinear_arith)
                requires
                    -q == (-(sum as int)) / n as int,
                    0 <= -sum <= 0x8000 * n,
                    n > 0,
            ;
        }
    }
    if sum >= 0 {
        (sum / n) as i16
    } else {
        let m: i64 = -sum;
        (-(m / n)) as i16
    }
}

/// Converts interleaved little-endian samples of any number of channels to
/// mono. Channels are averaged only as long as their sum fits in 32 bits.
pub fn to_mono(bytes: &[u8], channels: usize, pick: Option<u32>) -> (r: Vec<i16>)
    requires
        pick is None ==> channels <= 0x1_0000,
    ensures
        r@ == mono(samples_in(bytes@), channels as nat, pick),
{
    let samples = read_samples(bytes);
    if channels <= 1 {
        return samples;
    }
    let ghost all = samples@;
    let n: usize = samples.len() / channels;
    let mut r: Vec<i16> = Vec::new();
    let mut at: usize = 0;
    while r.len() < n
        invariant
            1 < channels,
            pick is None ==> channels <= 0x1_0000,
            all == samples@,
            all.len() == samples.len(),
            n == all.len() / channels as nat,
            r@.len() <= n,
            at == r@.len() * channels,
            r@ == mono(all, channels as nat, pick).take(r@.len() as int),
        decreases n - r.len(),
    {
        let ghost k = r@.len() as int;
        proof {
            assert((k + 1) * channels <= all.len()) by (nonlinear_arith)
                requires
                    k + 1 <= all.len() / channels as nat,
                    channels > 1,
            ;
            assert((k + 1) * channels == k * channels + channels) by (nonlinear_arith);
        }
        let frame = slice_subrange(samples.as_slice(), at, at + channels);
        assert(frame@ == all.subrange(k * channels, (k + 1) * channels));
        let x: i16 = match pick {
            Some(c) => if (c as usize) < frame.len() {
                frame[c as usize]
            } else {
                0
            },
            None => average(frame),
        };
        r.push(x);
        assert(r@ =~= mono(all, channels as nat, pick).take(k + 1));
        at = at + channels;
    }
    assert(r@ =~= mono(all, channels as nat, pick));
    r
}

/// When chunks start: at their own time, or else where the last one ended.
#[derive(Clone, Copy, Debug, PartialEq, Eq)]
pub struct TapClock {
    pub next_ms: Option<u64>,
}

impl TapClock {
    /// The start of a chunk.
    pub open spec fn start(self, pts_ms: Option<u64>) -> u64 {
        match (pts_ms, self.next_ms) {
            (Some(t), _) => t,
            (None, Some(t)) => t,
            (None, None) => 0,
        }
    }

    /// A tap that has heard nothing.
    pub fn new() -> (r: Self)
        ensures
            r.next_ms is None,
    {
        TapClock { next_ms: None }
    }

    /// When a chunk would start.
    pub fn start_of(&self, pts_ms: Option<u64>) -> (r: u64)
        ensures
            r == self.start(pts_ms),
    {
        match pts_ms {
            Some(t) => t,
            None => match self.next_ms {
                Some(t) => t,
                None => 0,
            },
        }
    }

    /// The start of a chunk of 16 kHz samples, whose buffer may carry a time.
    pub fn chunk(&mut self, pts_ms: Option<u64>, samples: usize) -> (r: u64)
        requires
            old(self).start(pts_ms) + samples as int / 16 <= u64::MAX,
        ensures
            r == old(self).start(pts_ms),
            final(self).next_ms == Some((r + samples as int / 16) as u64),
    {
        let start: u64 = self.start_of(pts_ms);
        self.next_ms = Some(start + samples as u64 / 16);
        start
    }
}

/// Picking a channel gives that channel, sample by sample; a single channel
/// passes through.
pub proof fn law_mono_picks_the_channel(samples: Seq<i16>, channels: nat, c: u32, i: int)
    requires
        channels > 1,
        c < channels,
        0 <= i < samples.len() / channels,
    ensures
        mono(samples, 1, None) == samples,
        mono(samples, channels, Some(c))[i] == samples[i * channels + c],
{
    assert((i + 1) * channels <= samples.len()) by (nonlinear_arith)
        requires
            i + 1 <= samples.len() / channels,
            channels > 1,
    ;
    assert((i + 1) * channels == i * channels + channels && i * channels >= 0)
        by (nonlinear_arith)
        requires
            i >= 0,
            channels > 1,
    ;
}

/// The average of channels lies between the softest and the loudest of them.
pub proof fn law_average_lies_within(frame: Seq<i16>, lo: i16, hi: i16)
    requires
        frame.len() > 0,
        forall|k: int| 0 <= k < frame.len() ==> lo <= #[trigger] frame[k] <= hi,
    ensures
        lo <= whole_part(total(frame), frame.len() as int) <= hi,
        mixed(frame, None) == whole_part(total(frame), frame.len() as int),
{
    let n = frame.len() as int;
    lemma_total_within(frame, lo, hi);
    let t = total(frame);
    let q = whole_part(t, n);
    if t >= 0 {
        assert(lo <= q <= hi) by (nonlinear_arith)
            requires
                q == t / n,
                t >= 0,
                n > 0,
                lo * n <= t <= hi * n,
        ;
    } else {
        assert(lo <= q <= hi) by (nonlinear_arith)
            requires
                q == -((-t) / n),
                t < 0,
                n > 0,
                lo * n <= t <= hi * n,
        ;
    }
}

proof fn lemma_total_within(frame: Seq<i16>, lo: i16, hi: i16)
    requires
        forall|k: int| 0 <= k < frame.len() ==> lo <= #[trigger] frame[k] <= hi,
    ensures
        lo * frame.len() <= total(frame) <= hi * frame.len(),
    decreases frame.len(),
{
    if frame.len() > 0 {
        let init = frame.drop_last();
        let n = init.len() as int;
        lemma_total_within(init, lo, hi);
        assert(lo <= frame[frame.len() - 1] <= hi);
        assert(lo * (n + 1) == lo * n + lo && hi * (n + 1) == hi * n + hi) by (nonlinear_arith);
    }
}

} // verus!
