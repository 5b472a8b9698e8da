//! The logs that the measuring tools write and read: one line per video frame,
//! fields separated by commas.
use vstd::prelude::*;

use crate::chars::{fields, join_with, text_lines, without_return};
use crate::decimal::{
    decimal, hex, push_decimal, push_hex, push_signed, push_text, signed_decimal,
};
use crate::numbers::{digits_value, signed_value, unsigned_value};
use crate::probe::arrival_of;
use crate::reorder::Meta;
use crate::report::{data_lines, row_of, rows_of, Row};
use crate::ts::Frame;
use crate::url_laws::{all_free_of, free_of, law_split_undoes_join};

verus! {

/// The fields of a frame: wallclock, PTS (empty if there is none), sequence
/// number, and the hash in hexadecimal.
pub open spec fn frame_fields(f: Frame) -> Seq<Seq<char>> {
    seq![
        signed_decimal(f.wall_ns as int),
        match f.pts {
            Some(p) => signed_decimal(p as int),
            None => seq![],
        },
        decimal(f.seq as nat),
        hex(f.tail_hash as nat, 16),
    ]
}

/// The line of a frame.
pub open spec fn frame_line(f: Frame) -> Seq<char> {
    join_with(frame_fields(f), ',')
}

/// The lines of frames, each with its line feed.
pub open spec fn frame_lines(frames: Seq<Frame>) -> Seq<char>
    decreases frames.len(),
{
    if frames.len() == 0 {
        seq![]
    } else {
        frame_lines(frames.drop_last()) + frame_line(frames.last()).push('\n')
    }
}

/// The first line of a log of frames.
pub fn frame_header() -> (r: String)
    ensures
        r@ == "wallclock_ns,pts_90k,frame_seq,tail_hash"@,
{
    "wallclock_ns,pts_90k,frame_seq,tail_hash".to_owned()
}

/// Appends the lines of frames.
pub fn write_rows(out: &mut String, frames: &[Frame])
    ensures
        final(out)@ == old(out)@ + frame_lines(frames@),
{
    let mut i: usize = 0;
    assert(out@ =~= old(out)@ + frame_lines(frames@.take(0)));
    while i < frames.len()
        invariant
            i <= frames@.len(),
            out@ == old(out)@ + frame_lines(frames@.take(i as int)),
        decreases frames.len() - i,
    {
        let f = frames[i];
        let ghost before = out@;
        push_signed(out, f.wall_ns);
        push_text(out, ",");
        if let Some(p) = f.pts {
            push_signed(out, p);
        }
        push_text(out, ",");
        push_decimal(out, f.seq);
        push_text(out, ",");
        push_hex(out, f.tail_hash, 16);
        out.push('\n');
        proof {
            reveal_strlit(",");
            lemma_frame_line(f);
            assert(out@ =~= before + frame_line(f).push('\n'));
            let next = frames@.take(i + 1);
            assert(next.drop_last() =~= frames@.take(i as int));
            assert(out@ =~= old(out)@ + frame_lines(next));
        }
        i += 1;
    }
    assert(frames@.take(frames@.len() as int) =~= frames@);
}

proof fn lemma_frame_line(f: Frame)
    ensures
        ({
            let s = frame_fields(f);
            frame_line(f) == s[0].push(',') + s[1].push(',') + s[2].push(',') + s[3]
        }),
{
    let s = frame_fields(f);
    reveal_with_fuel(join_with, 5);
    assert(s.drop_last() =~= seq![s[0], s[1], s[2]]);
    assert(s.drop_last().drop_last() =~= seq![s[0], s[1]]);
    assert(s.drop_last().drop_last().drop_last() =~= seq![s[0]]);
    assert(frame_line(f) =~= s[0].push(',') + s[1].push(',') + s[2].push(',') + s[3]);
}

/// The line of an arrival: wallclock and PTS.
pub open spec fn arrival_line(wall_ns: u64, pts: i64) -> Seq<char> {
    join_with(seq![decimal(wall_ns as nat), signed_decimal(pts as int)], ',')
}

/// Appends the line of an arrival.
pub fn write_arrival(out: &mut String, wall_ns: u64, pts: i64)
    ensures
        final(out)@ == old(out)@ + arrival_line(wall_ns, pts).push('\n'),
{
    push_decimal(out, wall_ns);
    push_text(out, ",");
    push_signed(out, pts);
    out.push('\n');
    proof {
        reveal_strlit(",");
        let s = seq![decimal(wall_ns as nat), signed_decimal(pts as int)];
        reveal_with_fuel(join_with, 3);
        assert(s.drop_last() =~= seq![s[0]]);
        assert(out@ =~= old(out)@ + arrival_line(wall_ns, pts).push('\n'));
    }
}

/// A video packet as an output wrote it.
#[derive(Clone, Copy, Debug)]
pub struct Written {
    pub meta: Meta,
    pub out_pts: i64,
    pub key: bool,
    pub bytes: u64,
    pub write_ns: u64,
}

/// How long a packet took from being read to being written, in microseconds.
pub open spec fn delay_us(w: Written) -> int {
    if w.write_ns < w.meta.read_ns {
        0
    } else {
        (w.write_ns - w.meta.read_ns) / 1000
    }
}

/// The fields of a written packet.
pub open spec fn written_fields(w: Written) -> Seq<Seq<char>> {
    seq![
        decimal(w.meta.session as nat),
        match w.meta.frame {
            Some(f) => decimal(f as nat),
            None => seq![],
        },
        signed_decimal(w.meta.in_pts as int),
        signed_decimal(w.out_pts as int),
        decimal(if w.key { 1 } else { 0 }),
        decimal(w.bytes as nat),
        decimal(w.meta.read_ns as nat),
        decimal(w.write_ns as nat),
        decimal(delay_us(w) as nat),
    ]
}

/// The first line of a log of written packets.
pub fn written_header() -> (r: String)
    ensures
        r@ == "session,frame,in_pts,out_pts,key,bytes,read_ns,write_ns,delay_us"@,
{
    "session,frame,in_pts,out_pts,key,bytes,read_ns,write_ns,delay_us".to_owned()
}

proof fn lemma_join_next(s: Seq<Seq<char>>, k: int, before: Seq<char>, out: Seq<char>)
    requires
        1 <= k < s.len(),
        out == (before + join_with(s.take(k), ',')) + ","@ + s[k],
    ensures
        out == before + join_with(s.take(k + 1), ','),
{
    reveal_strlit(",");
    assert(s.take(k + 1).drop_last() =~= s.take(k));
    assert(out =~= before + join_with(s.take(k + 1), ','));
}

/// Appends the line of a written packet.
pub fn write_written(out: &mut String, w: Written)
    ensures
        final(out)@ == old(out)@ + join_with(written_fields(w), ',').push('\n'),
{
    let ghost s = written_fields(w);
    let ghost before = out@;
    push_decimal(out, w.meta.session as u64);
    proof {
        assert(s.take(1) =~= seq![s[0]]);
        assert(out@ =~= before + join_with(s.take(1), ','));
    }
    push_text(out, ",");
    if let Some(f) = w.meta.frame {
        push_decimal(out, f);
    }
    proof {
        assert(out@ =~= (before + join_with(s.take(1), ',')) + ","@ + s[1]);
        lemma_join_next(s, 1, before, out@);
    }
    push_text(out, ",");
    push_signed(out, w.meta.in_pts);
    proof {
        lemma_join_next(s, 2, before, out@);
    }
    push_text(out, ",");
    push_signed(out, w.out_pts);
    proof {
        lemma_join_next(s, 3, before, out@);
    }
    push_text(out, ",");
    push_decimal(out, if w.key { 1 } else { 0 });
    proof {
        lemma_join_next(s, 4, before, out@);
    }
    push_text(out, ",");
    push_decimal(out, w.bytes);
    proof {
        lemma_join_next(s, 5, before, out@);
    }
    push_text(out, ",");
    push_decimal(out, w.meta.read_ns);
    proof {
        lemma_join_next(s, 6, before, out@);
    }
    push_text(out, ",");
    push_decimal(out, w.write_ns);
    proof {
        lemma_join_next(s, 7, before, out@);
    }
    push_text(out, ",");
    let late: u64 = if w.write_ns < w.meta.read_ns {
        0
    } else {
        (w.write_ns - w.meta.read_ns) / 1000
    };
    push_decimal(out, late);
    proof {
        lemma_join_next(s, 8, before, out@);
        assert(s.take(9) =~= s);
    }
    out.push('\n');
    assert(out@ =~= before + join_with(s, ',').push('\n'));
}

/// A decimal number is digits, and nothing that has a meaning in a text.
pub proof fn lemma_decimal_is_plain(n: nat)
    ensures
        decimal(n).len() > 0,
        forall|k: int|
            0 <= k < decimal(n).len() ==> 0x30 <= (#[trigger] decimal(n)[k]) as u32 <= 0x39,
    decreases n,
{
    if n >= 10 {
        lemma_decimal_is_plain(n / 10);
    }
}

proof fn lemma_decimal_value(n: nat)
    ensures
        digits_value(decimal(n), 10) == Some(n as int),
    decreases n,
{
    if n >= 10 {
        lemma_decimal_value(n / 10);
        lemma_decimal_is_plain(n / 10);
        assert(decimal(n).drop_last() =~= decimal(n / 10));
    }
}

/// A number that was written in decimal is read back.
pub proof fn law_decimal_reads_back(n: u64)
    ensures
        unsigned_value(decimal(n as nat), 10) == Some(n),
{
    lemma_decimal_value(n as nat);
    lemma_decimal_is_plain(n as nat);
    assert(decimal(n as nat)[0] as u32 >= 0x30);
}

/// A number that was written with its sign is read back.
pub proof fn law_signed_reads_back(x: i64)
    ensures
        signed_value(signed_decimal(x as int)) == Some(x),
{
    reveal_strlit("-");
    if x < 0 {
        let n = (-x) as nat;
        lemma_decimal_value(n);
        assert(signed_decimal(x as int).drop_first() =~= decimal(n));
    } else {
        lemma_decimal_value(x as nat);
        lemma_decimal_is_plain(x as nat);
        assert(decimal(x as nat)[0] as u32 >= 0x30);
    }
}

pub open spec fn power_of_sixteen(n: nat) -> nat
    decreases n,
{
    if n == 0 {
        1
    } else {
        16 * power_of_sixteen((n - 1) as nat)
    }
}

proof fn lemma_hex_is_plain(n: nat, digits: nat)
    ensures
        hex(n, digits).len() == digits,
        forall|k: int|
            0 <= k < hex(n, digits).len() ==> {
                let u = (#[trigger] hex(n, digits)[k]) as u32;
                0x30 <= u <= 0x39 || 0x61 <= u <= 0x66
            },
    decreases digits,
{
    if digits > 0 {
        lemma_hex_is_plain(n / 16, (digits - 1) as nat);
    }
}

proof fn lemma_hex_value(n: nat, digits: nat)
    requires
        n < power_of_sixteen(digits),
        digits > 0,
    ensures
        digits_value(hex(n, digits), 16) == Some(n as int),
    decreases digits,
{
    let head = hex(n / 16, (digits - 1) as nat);
    lemma_hex_is_plain(n / 16, (digits - 1) as nat);
    assert(hex(n, digits).drop_last() =~= head);
    if digits > 1 {
        let p = power_of_sixteen((digits - 1) as nat);
        assert(n / 16 < p) by (nonlinear_arith)
            requires
                n < 16 * p,
        ;
        lemma_hex_value(n / 16, (digits - 1) as nat);
    } else {
        assert(power_of_sixteen(1) == 16) by {
            reveal_with_fuel(power_of_sixteen, 2);
        }
    }
}

/// A hash that was written with sixteen digits is read back.
pub proof fn law_hash_reads_back(n: u64)
    ensures
        unsigned_value(hex(n as nat, 16), 16) == Some(n),
{
    assert(power_of_sixteen(16) == 0x1_0000_0000_0000_0000) by {
        reveal_with_fuel(power_of_sixteen, 17);
    }
    lemma_hex_value(n as nat, 16);
    lemma_hex_is_plain(n as nat, 16);
    assert(hex(n as nat, 16)[0] as u32 >= 0x30);
}

proof fn lemma_signed_is_plain(x: int)
    ensures
        signed_decimal(x).len() > 0,
        forall|k: int|
            0 <= k < signed_decimal(x).len() ==> {
                let u = (#[trigger] signed_decimal(x)[k]) as u32;
                u == 0x2D || 0x30 <= u <= 0x39
            },
{
    reveal_strlit("-");
    lemma_decimal_is_plain((if x < 0 {
        -x
    } else {
        x
    }) as nat);
}

/// The row that a frame's line stands for.
pub open spec fn row_for(f: Frame) -> Row {
    Row { wall: f.wall_ns, pts: f.pts, seq: f.seq, hash: f.tail_hash }
}

proof fn lemma_fields_are_plain(f: Frame)
    ensures
        all_free_of(frame_fields(f), ','),
        all_free_of(frame_fields(f), '\n'),
        all_free_of(frame_fields(f), '\r'),
{
    lemma_signed_is_plain(f.wall_ns as int);
    if let Some(p) = f.pts {
        lemma_signed_is_plain(p as int);
    }
    lemma_decimal_is_plain(f.seq as nat);
    lemma_hex_is_plain(f.tail_hash as nat, 16);
    let s = frame_fields(f);
    assert forall|k: int, c: char|
        0 <= k < s.len() && (c == ',' || c == '\n' || c == '\r') implies #[trigger] free_of(
        s[k],
        c,
    ) by {
        assert(k == 0 || k == 1 || k == 2 || k == 3);
    }
}

/// What is written of a frame is what is read back.
pub proof fn law_frame_reads_back(f: Frame)
    ensures
        row_of(fields(frame_line(f), ',')) == Some(row_for(f)),
{
    lemma_fields_are_plain(f);
    law_split_undoes_join(frame_fields(f), ',');
    law_signed_reads_back(f.wall_ns);
    if let Some(p) = f.pts {
        law_signed_reads_back(p);
    }
    law_decimal_reads_back(f.seq);
    law_hash_reads_back(f.tail_hash);
}

/// What is written of an arrival is what is read back.
pub proof fn law_arrival_reads_back(wall_ns: u64, pts: i64)
    ensures
        arrival_of(arrival_line(wall_ns, pts)) == Some((pts, wall_ns)),
{
    let s = seq![decimal(wall_ns as nat), signed_decimal(pts as int)];
    lemma_decimal_is_plain(wall_ns as nat);
    lemma_signed_is_plain(pts as int);
    assert forall|k: int| 0 <= k < s.len() implies free_of(#[trigger] s[k], ',') by {
        assert(k == 0 || k == 1);
    }
    law_split_undoes_join(s, ',');
    law_decimal_reads_back(wall_ns);
    law_signed_reads_back(pts);
}

/// A log of frames.
pub open spec fn frame_log(frames: Seq<Frame>) -> Seq<char> {
    "wallclock_ns,pts_90k,frame_seq,tail_hash"@.push('\n') + frame_lines(frames)
}

/// The lines of a log of frames.
pub open spec fn log_texts(frames: Seq<Frame>) -> Seq<Seq<char>> {
    seq!["wallclock_ns,pts_90k,frame_seq,tail_hash"@] + frames.map_values(|f: Frame| frame_line(f))
}

proof fn lemma_line_is_plain(f: Frame)
    ensures
        frame_line(f).len() > 0,
        free_of(frame_line(f), '\n'),
        without_return(frame_line(f)) == frame_line(f),
{
    lemma_fields_are_plain(f);
    lemma_frame_line(f);
    lemma_hex_is_plain(f.tail_hash as nat, 16);
    let s = frame_fields(f);
    assert(free_of(s[0], '\n') && free_of(s[1], '\n') && free_of(s[2], '\n') && free_of(s[3], '\n'));
    let line = frame_line(f);
    assert(line.last() == s[3][15]);
}

proof fn lemma_log_is_lines(frames: Seq<Frame>)
    ensures
        frame_log(frames) == join_with(log_texts(frames).push(seq![]), '\n'),
    decreases frames.len(),
{
    let header = "wallclock_ns,pts_90k,frame_seq,tail_hash"@;
    let all = log_texts(frames).push(seq![]);
    assert(all.drop_last() =~= log_texts(frames));
    assert(join_with(all, '\n') =~= join_with(log_texts(frames), '\n').push('\n'));
    if frames.len() == 0 {
        assert(log_texts(frames) =~= seq![header]);
        assert(frame_log(frames) =~= header.push('\n'));
    } else {
        let init = frames.drop_last();
        lemma_log_is_lines(init);
        let before = log_texts(init).push(seq![]);
        assert(before.drop_last() =~= log_texts(init));
        assert(join_with(before, '\n') =~= join_with(log_texts(init), '\n').push('\n'));
        assert(log_texts(frames).drop_last() =~= log_texts(init));
        assert(log_texts(frames).last() == frame_line(frames.last()));
        assert(frame_log(frames) =~= frame_log(init) + frame_line(frames.last()).push('\n'));
        assert(join_with(log_texts(frames), '\n') =~= join_with(log_texts(init), '\n').push('\n')
            + frame_line(frames.last()));
    }
}

proof fn lemma_rows(frames: Seq<Frame>)
    ensures
        rows_of(frames.map_values(|f: Frame| frame_line(f))) == frames.map_values(
            |f: Frame| row_for(f),
        ),
    decreases frames.len(),
{
    let list = frames.map_values(|f: Frame| frame_line(f));
    if frames.len() > 0 {
        lemma_rows(frames.drop_last());
        law_frame_reads_back(frames.last());
        assert(list.drop_last() =~= frames.drop_last().map_values(|f: Frame| frame_line(f)));
        assert(frames.map_values(|f: Frame| row_for(f)) =~= frames.drop_last().map_values(
            |f: Frame| row_for(f),
        ).push(row_for(frames.last())));
    } else {
        assert(frames.map_values(|f: Frame| row_for(f)) =~= seq![]);
    }
}

/// A log of frames is read back as it was written: every frame, in order, with
/// nothing left over.
pub proof fn law_log_reads_back(frames: Seq<Frame>)
    ensures
        rows_of(data_lines(text_lines(frame_log(frames)))) == frames.map_values(
            |f: Frame| row_for(f),
        ),
        data_lines(text_lines(frame_log(frames))).len() == frames.len(),
{
    reveal_strlit("wallclock_ns,pts_90k,frame_seq,tail_hash");
    reveal_strlit("wallclock_ns");
    let header = "wallclock_ns,pts_90k,frame_seq,tail_hash"@;
    let texts = log_texts(frames);
    let all = texts.push(seq![]);
    lemma_log_is_lines(frames);
    assert forall|k: int| 0 <= k < all.len() implies free_of(#[trigger] all[k], '\n') by {
        if 0 < k < texts.len() {
            lemma_line_is_plain(frames[k - 1]);
        }
    }
    law_split_undoes_join(all, '\n');
    assert(all.drop_last() =~= texts);
    let closed = texts.map_values(|l: Seq<char>| without_return(l));
    assert forall|k: int| 0 <= k < texts.len() implies closed[k] == #[trigger] texts[k] by {
        if 0 < k {
            lemma_line_is_plain(frames[k - 1]);
        }
    }
    assert(closed =~= texts);
    assert(text_lines(frame_log(frames)) == texts);
    assert("wallclock_ns"@ =~= header.subrange(0, "wallclock_ns"@.len() as int));
    assert(texts.drop_first() =~= frames.map_values(|f: Frame| frame_line(f)));
    lemma_rows(frames);
}

} // verus!
