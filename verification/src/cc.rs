//! Caption bytes: CEA-608/708 `cc_data` triples, ATSC A/53 packing, and
//! H.264/HEVC SEI NAL units.
use vstd::prelude::*;

use crate::chars::to_chars;

verus! {

/// Which caption stream a `cc_data` triple belongs to (A/53 `cc_type`).
#[derive(Clone, Copy, Debug, PartialEq, Eq, Structural)]
pub enum CcType {
    /// CEA-608 field 1 (CC1, CC2): code 0.
    Field1,
    /// CEA-608 field 2 (CC3, CC4): code 1.
    Field2,
    /// CEA-708 DTVCC packet data: code 2.
    DtvccData,
    /// CEA-708 DTVCC packet start: code 3.
    DtvccStart,
}

impl CcType {
    /// The two-bit `cc_type` code.
    pub open spec fn code_bits(self) -> u8 {
        match self {
            CcType::Field1 => 0,
            CcType::Field2 => 1,
            CcType::DtvccData => 2,
            CcType::DtvccStart => 3,
        }
    }

    /// The two-bit `cc_type` code.
    pub fn code(self) -> (r: u8)
        ensures
            r == self.code_bits(),
    {
        match self {
            CcType::Field1 => 0,
            CcType::Field2 => 1,
            CcType::DtvccData => 2,
            CcType::DtvccStart => 3,
        }
    }
}

/// One `cc_data` triple: validity, type and two data bytes.
#[derive(Clone, Copy, Debug, PartialEq, Eq)]
pub struct CcTriple {
    pub valid: bool,
    pub cc_type: CcType,
    pub data: [u8; 2],
}

impl CcTriple {
    /// Validity, type and the two data bytes.
    pub open spec fn parts(self) -> (bool, CcType, u8, u8) {
        (self.valid, self.cc_type, self.data@[0], self.data@[1])
    }

    /// The three bytes of the triple: marker bits `11111`, `cc_valid`,
    /// `cc_type`, then the data.
    pub open spec fn wire(self) -> Seq<u8> {
        seq![
            (0xF8 + (if self.valid { 4int } else { 0 }) + self.cc_type.code_bits()) as u8,
            self.data@[0],
            self.data@[1],
        ]
    }

    pub fn new(cc_type: CcType, data: [u8; 2]) -> (r: Self)
        ensures
            r.valid,
            r.cc_type == cc_type,
            r.data == data,
    {
        CcTriple { valid: true, cc_type, data }
    }

    /// Filler that decoders ignore: 608 null pair (0x80 0x80) with parity already set.
    pub fn null608(cc_type: CcType) -> (r: Self)
        ensures
            r.parts() == (true, cc_type, 0x80u8, 0x80u8),
    {
        CcTriple::new(cc_type, [0x80, 0x80])
    }

    /// The three bytes as they appear in `cc_data`: marker bits `11111`, `cc_valid`, `cc_type`.
    pub fn to_bytes(self) -> (r: [u8; 3])
        ensures
            r@ == self.wire(),
    {
        let valid: u8 = if self.valid { 4 } else { 0 };
        let r = [0xF8 + valid + self.cc_type.code(), self.data[0], self.data[1]];
        assert(r@ == self.wire());
        r
    }
}

/// CEA-608 caption channel.
#[derive(Clone, Copy, Debug, PartialEq, Eq, Structural)]
pub enum Channel {
    Cc1,
    Cc2,
    Cc3,
    Cc4,
}

/// How many bits of `b` are set.
pub open spec fn ones(b: u8) -> int {
    (b & 1) + ((b >> 1) & 1) + ((b >> 2) & 1) + ((b >> 3) & 1) + ((b >> 4) & 1) + ((b >> 5) & 1)
        + ((b >> 6) & 1) + ((b >> 7) & 1)
}

/// The low seven bits of `b`, with bit 7 set where their count is even.
pub open spec fn with_parity(b: u8) -> u8 {
    if ones(b & 0x7F) % 2 == 0 {
        (b & 0x7F) | 0x80
    } else {
        b & 0x7F
    }
}

/// With parity set every byte has an odd number of ones, and its low seven bits
/// are the ones given.
pub proof fn law_parity_is_odd(b: u8)
    ensures
        ones(with_parity(b)) % 2 == 1,
        with_parity(b) & 0x7F == b & 0x7F,
{
    assert(ones(with_parity(b)) % 2 == 1 && with_parity(b) & 0x7F == b & 0x7F) by (bit_vector);
}

/// Sets bit 7 so the byte has odd parity, as CEA-608 requires.
pub fn odd_parity(b: u8) -> (r: u8)
    ensures
        r == with_parity(b),
        ones(r) % 2 == 1,
        r & 0x7F == b & 0x7F,
{
    let low: u8 = b & 0x7F;
    let x: u8 = low ^ (low >> 4);
    let y: u8 = x ^ (x >> 2);
    let z: u8 = (y ^ (y >> 1)) & 1;
    assert((z == 0) == (ones(b & 0x7F) % 2 == 0)) by (bit_vector)
        requires
            low == b & 0x7F,
            x == low ^ (low >> 4),
            y == x ^ (x >> 2),
            z == (y ^ (y >> 1)) & 1,
    ;
    proof {
        law_parity_is_odd(b);
    }
    if z == 0 {
        low | 0x80
    } else {
        low
    }
}

/// The bytes of a list of triples, one after the other.
pub open spec fn wire_all(triples: Seq<CcTriple>) -> Seq<u8>
    decreases triples.len(),
{
    if triples.len() == 0 {
        seq![]
    } else {
        wire_all(triples.drop_last()) + triples.last().wire()
    }
}

/// The triples that fit one payload: at most 31.
pub open spec fn carried(triples: Seq<CcTriple>) -> Seq<CcTriple> {
    if triples.len() > 31 {
        triples.take(31)
    } else {
        triples
    }
}

/// The A/53 payload of a list of triples: country 0xB5, provider 0x0031,
/// "GA94", type 3, the flagged count, the triples, marker bits.
pub open spec fn a53(triples: Seq<CcTriple>) -> Seq<u8> {
    seq![
        0xB5u8,
        0x00,
        0x31,
        0x47,
        0x41,
        0x39,
        0x34,
        0x03,
        (0x40 + carried(triples).len()) as u8,
        0xFF,
    ] + wire_all(carried(triples)) + seq![0xFFu8]
}

/// ATSC A/53 `user_data_registered_itu_t_t35` payload carrying `cc_data`,
/// laid out as FFmpeg writes it (country 0xB5, provider 0x0031, "GA94", type 3).
pub fn a53_payload(triples: &[CcTriple]) -> (r: Vec<u8>)
    ensures
        r@ == a53(triples@),
        r@.len() == 11 + 3 * carried(triples@).len(),
{
    let count: usize = if triples.len() > 31 { 31 } else { triples.len() };
    let mut p: Vec<u8> = vec![0xB5, 0x00, 0x31, 0x47, 0x41, 0x39, 0x34, 0x03];
    p.push(0x40 + count as u8);
    p.push(0xFF);
    let ghost head = p@;
    let ghost all = carried(triples@);
    assert(head == a53(triples@).take(10));
    assert(wire_all(all.take(0)) == Seq::<u8>::empty());
    let mut i: usize = 0;
    while i < count
        invariant
            i <= count,
            count == all.len(),
            count <= triples.len(),
            all == carried(triples@),
            p@ == head + wire_all(all.take(i as int)),
            p@.len() == 10 + 3 * i,
            head.len() == 10,
        decreases count - i,
    {
        let b = triples[i].to_bytes();
        assert(all[i as int] == triples@[i as int]);
        assert(all.take(i + 1).drop_last() == all.take(i as int));
        let ghost before = p@;
        p.push(b[0]);
        p.push(b[1]);
        p.push(b[2]);
        assert(p@ == before + triples@[i as int].wire());
        i = i + 1;
    }
    assert(all.take(count as int) == all);
    p.push(0xFF);
    p
}

/// Whether a byte string ends in two zero bytes.
pub open spec fn ends_in_two_zeros(s: Seq<u8>) -> bool {
    s.len() >= 2 && s[s.len() - 1] == 0 && s[s.len() - 2] == 0
}

/// A raw payload with an emulation-prevention byte (0x03) before every byte up
/// to 3 that would follow two zero bytes.
pub open spec fn escaped(rbsp: Seq<u8>) -> Seq<u8>
    decreases rbsp.len(),
{
    if rbsp.len() == 0 {
        seq![]
    } else {
        let head = escaped(rbsp.drop_last());
        if ends_in_two_zeros(head) && rbsp.last() <= 3 {
            head.push(3).push(rbsp.last())
        } else {
            head.push(rbsp.last())
        }
    }
}

/// A payload without its emulation-prevention bytes: every 0x03 behind two zero
/// bytes taken out.
pub open spec fn unescaped(nal: Seq<u8>) -> Seq<u8>
    decreases nal.len(),
{
    if nal.len() == 0 {
        seq![]
    } else {
        let head = unescaped(nal.drop_last());
        if nal.last() == 3 && ends_in_two_zeros(nal.drop_last()) {
            head
        } else {
            head.push(nal.last())
        }
    }
}

/// Whether `s` holds `00 00` followed by a byte up to 2 at `i`: a start code or
/// what a NAL unit may not hold either.
pub open spec fn start_code_at(s: Seq<u8>, i: int) -> bool {
    0 <= i && i + 2 < s.len() && s[i] == 0 && s[i + 1] == 0 && s[i + 2] <= 2
}

/// Escaping is undone by taking the emulation-prevention bytes out again.
pub proof fn law_escape_is_undone(rbsp: Seq<u8>)
    ensures
        unescaped(escaped(rbsp)) == rbsp,
    decreases rbsp.len(),
{
    if rbsp.len() == 0 {
    } else {
        let head = escaped(rbsp.drop_last());
        law_escape_is_undone(rbsp.drop_last());
        if ends_in_two_zeros(head) && rbsp.last() <= 3 {
            assert(head.push(3).push(rbsp.last()).drop_last() == head.push(3));
            assert(head.push(3u8).drop_last() == head);
            assert(unescaped(head.push(3)) == unescaped(head));
            assert(!ends_in_two_zeros(head.push(3)));
        } else {
            assert(head.push(rbsp.last()).drop_last() == head);
        }
        assert(rbsp.drop_last().push(rbsp.last()) == rbsp);
    }
}

/// An escaped payload never holds a start code.
pub proof fn law_escaped_has_no_start_code(rbsp: Seq<u8>)
    ensures
        forall|i: int| !#[trigger] start_code_at(escaped(rbsp), i),
    decreases rbsp.len(),
{
    if rbsp.len() > 0 {
        let head = escaped(rbsp.drop_last());
        law_escaped_has_no_start_code(rbsp.drop_last());
        assert forall|i: int| !#[trigger] start_code_at(escaped(rbsp), i) by {
            assert(!start_code_at(head, i));
        }
    }
}

/// Inserts emulation-prevention bytes (0x03) so the payload never contains a start code.
pub fn escape(rbsp: &[u8]) -> (r: Vec<u8>)
    ensures
        r@ == escaped(rbsp@),
{
    let mut out: Vec<u8> = Vec::new();
    for i in 0..rbsp.len()
        invariant
            out@ == escaped(rbsp@.take(i as int)),
    {
        let b: u8 = rbsp[i];
        assert(rbsp@.take(i + 1).drop_last() == rbsp@.take(i as int));
        let n: usize = out.len();
        if n >= 2 && out[n - 1] == 0 && out[n - 2] == 0 && b <= 3 {
            out.push(0x03);
        }
        out.push(b);
    }
    assert(rbsp@.take(rbsp@.len() as int) == rbsp@);
    out
}

/// A SEI payload size: as many 0xFF as 255 goes into it, then the rest.
pub open spec fn size_bytes(n: nat) -> Seq<u8>
    decreases n,
{
    if n >= 255 {
        seq![0xFFu8] + size_bytes((n - 255) as nat)
    } else {
        seq![n as u8]
    }
}

/// The SEI message with the A/53 payload of the triples: payload type 4, size,
/// payload, trailing bits.
pub open spec fn sei_message(triples: Seq<CcTriple>) -> Seq<u8> {
    seq![4u8] + size_bytes(a53(triples).len()) + a53(triples) + seq![0x80u8]
}

/// The H.264 SEI NAL unit (type 6) of the triples.
pub open spec fn h264_sei(triples: Seq<CcTriple>) -> Seq<u8> {
    seq![6u8] + escaped(sei_message(triples))
}

/// The HEVC prefix SEI NAL unit (type 39, layer 0, temporal id 0) of the triples.
pub open spec fn hevc_sei(triples: Seq<CcTriple>) -> Seq<u8> {
    seq![0x4Eu8, 0x01] + escaped(sei_message(triples))
}

fn sei_rbsp(triples: &[CcTriple]) -> (r: Vec<u8>)
    ensures
        r@ == sei_message(triples@),
{
    let mut payload = a53_payload(triples);
    let ghost body = payload@;
    let mut rbsp: Vec<u8> = vec![4];
    let mut size: usize = payload.len();
    let ghost head = seq![4u8] + size_bytes(size as nat);
    while size >= 255
        invariant
            rbsp@ + size_bytes(size as nat) == head,
        decreases size,
    {
        let ghost before = rbsp@;
        rbsp.push(0xFF);
        size = size - 255;
        assert(before.push(0xFF) + size_bytes(size as nat) == before + (seq![0xFFu8] + size_bytes(
            size as nat,
        )));
    }
    rbsp.push(size as u8);
    assert(rbsp@ == head);
    rbsp.append(&mut payload);
    rbsp.push(0x80);
    assert(rbsp@ == head + body + seq![0x80u8]);
    rbsp
}

/// H.264 SEI NAL unit (type 6) carrying the triples. No start code; emulation
/// prevention applied.
pub fn h264_sei_nal(triples: &[CcTriple]) -> (r: Vec<u8>)
    ensures
        r@ == h264_sei(triples@),
{
    let mut nal: Vec<u8> = vec![0x06];
    let mut body = escape(sei_rbsp(triples).as_slice());
    nal.append(&mut body);
    assert(nal@ == h264_sei(triples@));
    nal
}

/// HEVC prefix SEI NAL unit (type 39, layer 0, temporal id 0) carrying the
/// triples. No start code; emulation prevention applied.
pub fn hevc_sei_nal(triples: &[CcTriple]) -> (r: Vec<u8>)
    ensures
        r@ == hevc_sei(triples@),
{
    let mut nal: Vec<u8> = vec![0x4E, 0x01];
    let mut body = escape(sei_rbsp(triples).as_slice());
    nal.append(&mut body);
    assert(nal@ == hevc_sei(triples@));
    nal
}

/// A caption NAL unit holds no start code, its header included, whatever the
/// triples.
pub proof fn law_sei_nal_has_no_start_code(triples: Seq<CcTriple>)
    ensures
        forall|i: int| !#[trigger] start_code_at(h264_sei(triples), i),
        forall|i: int| !#[trigger] start_code_at(hevc_sei(triples), i),
{
    let body = escaped(sei_message(triples));
    law_escaped_has_no_start_code(sei_message(triples));
    assert forall|i: int| !#[trigger] start_code_at(h264_sei(triples), i) by {
        assert(!start_code_at(body, i - 1));
        if start_code_at(h264_sei(triples), i) {
            assert(i >= 1);
        }
    }
    assert forall|i: int| !#[trigger] start_code_at(hevc_sei(triples), i) by {
        assert(!start_code_at(body, i - 2));
        if start_code_at(hevc_sei(triples), i) {
            assert(i >= 2);
        }
    }
}

/// A caption NAL unit never ends in a zero byte, so splitting a stream drops
/// nothing of it.
pub proof fn law_sei_nal_ends_in_trailing_bits(triples: Seq<CcTriple>)
    ensures
        h264_sei(triples).last() == 0x80,
        hevc_sei(triples).last() == 0x80,
{
    let message = sei_message(triples);
    assert(message.last() == 0x80u8);
    assert(escaped(message).last() == 0x80u8);
}

/// The lines [`fixture_triples`] sends, in order.
pub open spec fn fixture_text(k: int) -> Seq<char> {
    if k == 0 {
        "HELLO FROM MULTI"@
    } else if k == 1 {
        "CAPTION FIXTURE LINE TWO"@
    } else {
        "ROLL UP TEST 123"@
    }
}

fn fixture_line(k: u64) -> (r: &'static str)
    requires
        k < 3,
    ensures
        r@ == fixture_text(k as int),
{
    if k == 0 {
        "HELLO FROM MULTI"
    } else if k == 1 {
        "CAPTION FIXTURE LINE TWO"
    } else {
        "ROLL UP TEST 123"
    }
}

/// Whether a character is printable ASCII.
pub open spec fn printable(c: char) -> bool {
    0x20 <= c as u32 && (c as u32) < 0x7F
}

/// The byte at `i` with parity, or the null byte past the end.
pub open spec fn parity_at(bytes: Seq<char>, i: int) -> u8 {
    if i < bytes.len() {
        with_parity(bytes[i] as u8)
    } else {
        with_parity(0)
    }
}

/// The field-1 pair number `at` of a fixture line: RU2 and CR, each twice, then
/// the printable characters two by two, then nulls.
pub open spec fn fixture_pair(text: Seq<char>, at: int) -> Seq<u8> {
    let shown = text.filter(|c: char| printable(c));
    if at < 2 {
        seq![with_parity(0x14), with_parity(0x25)]
    } else if at < 4 {
        seq![with_parity(0x14), with_parity(0x2D)]
    } else {
        seq![parity_at(shown, 2 * (at - 4)), parity_at(shown, 2 * (at - 4) + 1)]
    }
}

/// The printable ASCII characters of `text` as bytes.
fn printable_bytes(text: &str) -> (r: Vec<u8>)
    ensures
        r@ == text@.filter(|c: char| printable(c)).map_values(|c: char| c as u8),
{
    let all = to_chars(text);
    let mut r: Vec<u8> = Vec::new();
    proof {
        reveal(Seq::filter);
        assert(text@.take(0).filter(|c: char| printable(c)).map_values(|c: char| c as u8) == r@);
    }
    for i in 0..all.len()
        invariant
            all@ == text@,
            r@ == text@.take(i as int).filter(|c: char| printable(c)).map_values(
                |c: char| c as u8,
            ),
    {
        let c = all[i];
        proof {
            reveal(Seq::filter);
            assert(text@.take(i + 1).drop_last() == text@.take(i as int));
        }
        let ghost kept = text@.take(i as int).filter(|c: char| printable(c));
        let u: u32 = c as u32;
        if 0x20 <= u && u < 0x7F {
            r.push(c as u8);
            assert(kept.push(c).map_values(|c: char| c as u8) == r@);
        }
    }
    assert(text@.take(text@.len() as int) == text@);
    r
}

/// Pair number `at` of a fixture line.
fn fixture_data(text: &str, at: usize) -> (r: [u8; 2])
    requires
        at < 60,
    ensures
        r@ == fixture_pair(text@, at as int),
{
    let ghost shown = text@.filter(|c: char| printable(c));
    let r = if at < 2 {
        [odd_parity(0x14), odd_parity(0x25)]
    } else if at < 4 {
        [odd_parity(0x14), odd_parity(0x2D)]
    } else {
        let bytes = printable_bytes(text);
        let k: usize = 2 * (at - 4);
        let a: u8 = if k < bytes.len() { bytes[k] } else { 0 };
        let b: u8 = if k + 1 < bytes.len() { bytes[k + 1] } else { 0 };
        assert(k < shown.len() ==> a == shown[k as int] as u8);
        assert(k + 1 < shown.len() ==> b == shown[k + 1] as u8);
        [odd_parity(a), odd_parity(b)]
    };
    assert(r@ == fixture_pair(text@, at as int));
    r
}

/// Fixed CC1 roll-up captions for testing insertion: one line every 2 seconds
/// at 30 fps, cycling through three lines. Returns this frame's triples (a
/// field-1 pair plus field-2 filler).
pub fn fixture_triples(frame: u64) -> (r: Vec<CcTriple>)
    ensures
        r@.len() == 2,
        r@[0].valid,
        r@[0].cc_type == CcType::Field1,
        r@[0].data@ == fixture_pair(fixture_text((frame / 60) as int % 3), (frame % 60) as int),
        r@[1].parts() == (true, CcType::Field2, 0x80u8, 0x80u8),
{
    let data = fixture_data(fixture_line((frame / 60) % 3), (frame % 60) as usize);
    vec![CcTriple::new(CcType::Field1, data), CcTriple::null608(CcType::Field2)]
}

} // verus!
