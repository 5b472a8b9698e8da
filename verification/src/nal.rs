//! Annex-B access-unit surgery: find the first VCL NAL and splice a SEI NAL in
//! front of it.
use vstd::prelude::*;

pub use crate::annexb::VideoCodec;
use crate::annexb::{code_at, h264_type, hevc_type};

verus! {

impl VideoCodec {
    /// The header begins a video coding layer unit: H.264 types 1-5 (slices,
    /// partitions A-C, IDR), HEVC types 0-31.
    pub open spec fn vcl(self, header: u8) -> bool {
        match self {
            VideoCodec::H264 => 1 <= h264_type(header) <= 5,
            VideoCodec::Hevc => hevc_type(header) <= 31,
        }
    }

    /// The header begins a random-access slice: H.264 IDR, HEVC IRAP (16-23).
    pub open spec fn key(self, header: u8) -> bool {
        match self {
            VideoCodec::H264 => h264_type(header) == 5,
            VideoCodec::Hevc => 16 <= hevc_type(header) <= 23,
        }
    }

    fn is_vcl(self, header: u8) -> (r: bool)
        ensures
            r == self.vcl(header),
    {
        match self {
            VideoCodec::H264 => {
                let t: u8 = header & 0x1F;
                1 <= t && t <= 5
            },
            VideoCodec::Hevc => ((header >> 1) & 0x3F) <= 31,
        }
    }

    fn is_key(self, header: u8) -> (r: bool)
        ensures
            r == self.key(header),
    {
        match self {
            VideoCodec::H264 => header & 0x1F == 5,
            VideoCodec::Hevc => {
                let t: u8 = (header >> 1) & 0x3F;
                16 <= t && t <= 23
            },
        }
    }
}

/// A start code with a VCL header behind it stands at `i`.
pub open spec fn vcl_at(data: Seq<u8>, codec: VideoCodec, i: int) -> bool {
    code_at(data, i) && i + 3 < data.len() && codec.vcl(data[i + 3])
}

/// The first VCL start code from `i` on.
pub open spec fn first_vcl(data: Seq<u8>, codec: VideoCodec, i: int) -> Option<int>
    decreases data.len() - i,
{
    if i + 3 >= data.len() {
        None
    } else if vcl_at(data, codec, i) {
        Some(i)
    } else {
        first_vcl(data, codec, i + 1)
    }
}

/// Where the start code at `i` begins: one byte earlier if a zero stands there.
pub open spec fn code_start(data: Seq<u8>, i: int) -> int {
    if i > 0 && data[i - 1] == 0 {
        i - 1
    } else {
        i
    }
}

/// The place of the three-byte start code of the first VCL NAL.
fn find_vcl(data: &[u8], codec: VideoCodec) -> (r: Option<usize>)
    ensures
        r is Some == first_vcl(data@, codec, 0) is Some,
        r matches Some(i) ==> i == first_vcl(data@, codec, 0)->0 && vcl_at(data@, codec, i as int),
{
    let mut i: usize = 0;
    while i < data.len() && data.len() - i > 3
        invariant
            i <= data@.len(),
            first_vcl(data@, codec, 0) == first_vcl(data@, codec, i as int),
        decreases data@.len() - i,
    {
        if data[i] == 0 && data[i + 1] == 0 && data[i + 2] == 1 && codec.is_vcl(data[i + 3]) {
            return Some(i);
        }
        i = i + 1;
    }
    None
}

/// Byte offset of the start code (3- or 4-byte) that begins the first VCL NAL,
/// or `None` if the buffer is not Annex-B or has no VCL NAL.
pub fn first_vcl_offset(data: &[u8], codec: VideoCodec) -> (r: Option<usize>)
    ensures
        r is Some == first_vcl(data@, codec, 0) is Some,
        r matches Some(at) ==> at == code_start(data@, first_vcl(data@, codec, 0)->0),
        r matches Some(at) ==> at < data@.len(),
{
    match find_vcl(data, codec) {
        Some(i) => if i > 0 && data[i - 1] == 0 {
            Some(i - 1)
        } else {
            Some(i)
        },
        None => None,
    }
}

/// A start code with a random-access slice behind it stands at `i`.
pub open spec fn key_at(data: Seq<u8>, codec: VideoCodec, i: int) -> bool {
    code_at(data, i) && i + 3 < data.len() && codec.key(data[i + 3])
}

/// True if the access unit contains an IDR (H.264 type 5) or IRAP (HEVC
/// types 16-23) slice. Needed when the demuxer runs without a parser, because
/// it then leaves keyframe flags unset.
pub fn is_keyframe(data: &[u8], codec: VideoCodec) -> (r: bool)
    ensures
        r == exists|i: int| 0 <= i && #[trigger] key_at(data@, codec, i),
{
    let mut i: usize = 0;
    while i < data.len() && data.len() - i > 3
        invariant
            i <= data@.len(),
            forall|k: int| 0 <= k < i ==> !#[trigger] key_at(data@, codec, k),
        decreases data@.len() - i,
    {
        if data[i] == 0 && data[i + 1] == 0 && data[i + 2] == 1 && codec.is_key(data[i + 3]) {
            assert(key_at(data@, codec, i as int));
            return true;
        }
        i = i + 1;
    }
    false
}

/// The first start code from `i` on that has a byte behind it.
pub open spec fn first_header(data: Seq<u8>, i: int) -> Option<int>
    decreases data.len() - i,
{
    if i + 3 >= data.len() {
        None
    } else if code_at(data, i) {
        Some(i)
    } else {
        first_header(data, i + 1)
    }
}

/// The two bytes can begin an HEVC unit: no forbidden bit, layer 0, a temporal id.
pub open spec fn valid_hevc(b0: u8, b1: u8) -> bool {
    b0 & 0x81 == 0 && b1 & 0xF8 == 0 && b1 & 7 != 0
}

/// The two bytes begin an HEVC parameter set, delimiter or prefix SEI.
pub open spec fn hevc_set(b0: u8, b1: u8) -> bool {
    valid_hevc(b0, b1) && (32 <= hevc_type(b0) <= 35 || hevc_type(b0) == 39)
}

/// The byte can begin an H.264 unit.
pub open spec fn valid_h264(b0: u8) -> bool {
    b0 & 0x80 == 0 && (1 <= h264_type(b0) <= 12 || h264_type(b0) == 14 || h264_type(b0) == 15
        || h264_type(b0) == 20)
}

/// What two header bytes say of a stream expected to be `codec`: the other codec
/// (`true`), this one (`false`), or nothing.
pub open spec fn header_verdict(codec: VideoCodec, b0: u8, b1: u8) -> Option<bool> {
    match codec {
        VideoCodec::H264 => if hevc_set(b0, b1) {
            Some(true)
        } else if valid_h264(b0) && !valid_hevc(b0, b1) {
            Some(false)
        } else {
            None
        },
        VideoCodec::Hevc => if valid_h264(b0) && !valid_hevc(b0, b1) {
            Some(true)
        } else if valid_hevc(b0, b1) {
            Some(false)
        } else {
            None
        },
    }
}

/// Checks the first NAL header against `codec`: `Some(true)` = it is the
/// other codec, `Some(false)` = it is `codec`, `None` = can't tell (some
/// headers are valid in both). H.264 headers are 1 byte; HEVC 2 bytes with
/// layer id 0 and temporal_id_plus1 != 0.
pub fn looks_like_other_codec(data: &[u8], codec: VideoCodec) -> (r: Option<bool>)
    ensures
        r == (match first_header(data@, 0) {
            Some(i) => if i + 4 < data@.len() {
                header_verdict(codec, data@[i + 3], data@[i + 4])
            } else {
                None
            },
            None => None,
        }),
{
    let mut i: usize = 0;
    while i < data.len() && data.len() - i > 3
        invariant
            i <= data@.len(),
            first_header(data@, 0) == first_header(data@, i as int),
        decreases data@.len() - i,
    {
        if data[i] == 0 && data[i + 1] == 0 && data[i + 2] == 1 {
            if data.len() - i <= 4 {
                return None;
            }
            let b0: u8 = data[i + 3];
            let b1: u8 = data[i + 4];
            let hevc_ok = b0 & 0x81 == 0 && b1 & 0xF8 == 0 && b1 & 7 != 0;
            let t: u8 = (b0 >> 1) & 0x3F;
            let hevc_ps = hevc_ok && ((32 <= t && t <= 35) || t == 39);
            let u: u8 = b0 & 0x1F;
            let h264_ok = b0 & 0x80 == 0 && ((1 <= u && u <= 12) || u == 14 || u == 15 || u == 20);
            return match codec {
                VideoCodec::H264 => if hevc_ps {
                    Some(true)
                } else if h264_ok && !hevc_ok {
                    Some(false)
                } else {
                    None
                },
                VideoCodec::Hevc => if h264_ok && !hevc_ok {
                    Some(true)
                } else if hevc_ok {
                    Some(false)
                } else {
                    None
                },
            };
        }
        i = i + 1;
    }
    None
}

/// Why an access unit was passed through without a caption SEI.
#[derive(Clone, Copy, Debug, PartialEq, Eq, Structural)]
pub enum Skip {
    /// Buffer does not start with an Annex-B start code.
    NotAnnexB,
    /// No VCL NAL found (e.g. a parameter-set-only packet).
    NoVcl,
}

/// The buffer starts with a start code of three or four bytes.
pub open spec fn annex_b(au: Seq<u8>) -> bool {
    code_at(au, 0) || (au.len() >= 4 && au[0] == 0 && code_at(au, 1))
}

/// Returns a new access unit with `00 00 00 01 + sei_nal` spliced in directly
/// before the first VCL NAL, i.e. after AUD/SPS/PPS/(VPS)/existing SEI.
pub fn insert_sei(au: &[u8], sei_nal: &[u8], codec: VideoCodec) -> (r: Result<Vec<u8>, Skip>)
    ensures
        r == Err::<Vec<u8>, Skip>(Skip::NotAnnexB) <==> !annex_b(au@),
        r == Err::<Vec<u8>, Skip>(Skip::NoVcl) <==> annex_b(au@) && first_vcl(au@, codec, 0) is None,
        r is Ok <==> annex_b(au@) && first_vcl(au@, codec, 0) is Some,
        r matches Ok(out) ==> ({
            let at = code_start(au@, first_vcl(au@, codec, 0)->0);
            out@ == au@.take(at) + seq![0u8, 0, 0, 1] + sei_nal@ + au@.skip(at)
        }),
{
    let three = au.len() >= 3 && au[0] == 0 && au[1] == 0 && au[2] == 1;
    let four = au.len() >= 4 && au[0] == 0 && au[1] == 0 && au[2] == 0 && au[3] == 1;
    if !three && !four {
        return Err(Skip::NotAnnexB);
    }
    match first_vcl_offset(au, codec) {
        Some(at) => {
            let mut out: Vec<u8> = Vec::new();
            let (before, after) = au.split_at(at);
            out.extend_from_slice(before);
            assert(out@ =~= au@.take(at as int));
            out.push(0);
            out.push(0);
            out.push(0);
            out.push(1);
            let ghost head = out@;
            out.extend_from_slice(sei_nal);
            assert(out@ =~= head + sei_nal@);
            let ghost spliced = out@;
            out.extend_from_slice(after);
            assert(out@ =~= spliced + au@.skip(at as int));
            Ok(out)
        },
        None => Err(Skip::NoVcl),
    }
}

} // verus!
