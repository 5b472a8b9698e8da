//! WAV headers.
use vstd::prelude::*;

verus! {

/// What a WAV header says of its samples.
#[derive(Clone, Copy, Debug, PartialEq, Eq)]
pub struct WavData {
    /// Bytes of samples, as many as the file holds.
    pub size: usize,
    pub byte_rate: u32,
}

/// Why a file's duration cannot be told.
#[derive(Clone, Copy, Debug, PartialEq, Eq, Structural)]
pub enum WavError {
    /// Not a RIFF/WAVE file.
    NotWave,
    /// The samples come before their format.
    DataBeforeFormat,
    /// No samples.
    NoData,
}

/// Four bytes as a number, least significant first.
pub open spec fn le32(d: Seq<u8>, i: int) -> int {
    d[i] + d[i + 1] * 0x100 + d[i + 2] * 0x1_0000 + d[i + 3] * 0x100_0000
}

/// The four bytes at `i`.
pub open spec fn tag_at(d: Seq<u8>, i: int, a: u8, b: u8, c: u8, e: u8) -> bool {
    d[i] == a && d[i + 1] == b && d[i + 2] == c && d[i + 3] == e
}

/// The chunks from `i` on, the byte rate so far being `rate`: chunks follow one
/// another, padded to even lengths; the last format before the samples counts.
pub open spec fn chunks_from(d: Seq<u8>, i: int, rate: u32) -> Result<WavData, WavError>
    decreases d.len() - i,
{
    if i + 8 > d.len() {
        Err(WavError::NoData)
    } else {
        let size = le32(d, i + 4);
        let next = i + 8 + size + size % 2;
        if tag_at(d, i, 0x66, 0x6D, 0x74, 0x20) && i + 20 <= d.len() {
            if next < i + 8 || next > d.len() {
                Err(WavError::NoData)
            } else {
                chunks_from(d, next, le32(d, i + 16) as u32)
            }
        } else if tag_at(d, i, 0x64, 0x61, 0x74, 0x61) {
            if rate == 0 {
                Err(WavError::DataBeforeFormat)
            } else {
                let left = d.len() - i - 8;
                Ok(
                    WavData {
                        size: (if size < left {
                            size
                        } else {
                            left
                        }) as usize,
                        byte_rate: rate,
                    },
                )
            }
        } else if next < i + 8 || next > d.len() {
            Err(WavError::NoData)
        } else {
            chunks_from(d, next, rate)
        }
    }
}

/// What the header of a PCM WAV file says.
pub open spec fn wav_header(d: Seq<u8>) -> Result<WavData, WavError> {
    if d.len() < 12 || !tag_at(d, 0, 0x52, 0x49, 0x46, 0x46) || !tag_at(
        d,
        8,
        0x57,
        0x41,
        0x56,
        0x45,
    ) {
        Err(WavError::NotWave)
    } else {
        chunks_from(d, 12, 0)
    }
}

fn read_le32(d: &[u8], i: usize) -> (r: u32)
    requires
        i + 4 <= d@.len(),
    ensures
        r == le32(d@, i as int),
{
    d[i] as u32 + d[i + 1] as u32 * 0x100 + d[i + 2] as u32 * 0x1_0000 + d[i + 3] as u32
        * 0x100_0000
}

fn has_tag(d: &[u8], i: usize, a: u8, b: u8, c: u8, e: u8) -> (r: bool)
    requires
        i + 4 <= d@.len(),
    ensures
        r == tag_at(d@, i as int, a, b, c, e),
{
    d[i] == a && d[i + 1] == b && d[i + 2] == c && d[i + 3] == e
}

/// Size and byte rate of the samples of a PCM WAV file, from its header.
pub fn wav_data(d: &[u8]) -> (r: Result<WavData, WavError>)
    ensures
        r == wav_header(d@),
{
    if d.len() < 12 || !has_tag(d, 0, 0x52, 0x49, 0x46, 0x46) || !has_tag(
        d,
        8,
        0x57,
        0x41,
        0x56,
        0x45,
    ) {
        return Err(WavError::NotWave);
    }
    let mut i: usize = 12;
    let mut rate: u32 = 0;
    while d.len() - i >= 8
        invariant
            12 <= i <= d@.len(),
            wav_header(d@) == chunks_from(d@, i as int, rate),
        decreases d@.len() - i,
    {
        let size: u32 = read_le32(d, i + 4);
        let left: usize = d.len() - i - 8;
        if has_tag(d, i, 0x66, 0x6D, 0x74, 0x20) && d.len() - i >= 20 {
            rate = read_le32(d, i + 16);
        } else if has_tag(d, i, 0x64, 0x61, 0x74, 0x61) {
            if rate == 0 {
                return Err(WavError::DataBeforeFormat);
            }
            let held: usize = if (size as u64) < left as u64 { size as usize } else { left };
            return Ok(WavData { size: held, byte_rate: rate });
        }
        let step: u64 = size as u64 + (size % 2) as u64;
        if step > left as u64 {
            return Err(WavError::NoData);
        }
        i = i + 8 + step as usize;
    }
    Err(WavError::NoData)
}

} // verus!
