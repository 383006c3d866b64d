//! The byte stream that makes a P-touch label printer print.
//!
//! A job resets the printer, and for each label tells it about the tape and
//! the cuts, hands over the label line by line, and has it printed. The print
//! head has 128 pins whatever the tape; the print area of a narrower one lies
//! in the middle of them.

use vstd::prelude::*;
use crate::labels::{head_layout, pins, Raster};

verus! {

/// The bytes of one line across the print head.
pub const HEAD_BYTES: usize = 16;

/// The feed margin in dots: two millimetres at 180 dots an inch.
pub const DEFAULT_MARGIN_DOTS: u16 = 14;

/// A number in four bytes, the lowest first.
pub open spec fn le4(n: u32) -> Seq<u8> {
    seq![
        (n % 256) as u8,
        (n / 256 % 256) as u8,
        (n / 65536 % 256) as u8,
        (n / 16777216) as u8,
    ]
}

/// The print information command: the tape's width and how many lines the
/// label has, so that the printer can tell whether the right tape is in it.
/// The kind of tape is not claimed, and the starting page is always the first.
pub open spec fn information(tape_mm: u8, raster_count: u32) -> Seq<u8> {
    seq![0x1bu8, 0x69, 0x7a, 0x86, 0x00, tape_mm, 0x00] + le4(raster_count) + seq![0x00u8, 0x00]
}

pub fn print_information_bytes(tape_mm: u8, raster_count: u32) -> (r: Vec<u8>)
    ensures
        r@ == information(tape_mm, raster_count),
{
    let r = vec![
        0x1b,
        0x69,
        0x7a,
        0x86,
        0x00,
        tape_mm,
        0x00,
        (raster_count % 256) as u8,
        (raster_count / 256 % 256) as u8,
        (raster_count / 65536 % 256) as u8,
        (raster_count / 16777216) as u8,
        0x00,
        0x00,
    ];
    assert(r@ =~= information(tape_mm, raster_count));
    r
}

/// Various modes: whether to cut after each label.
pub open spec fn mode_settings(auto_cut: bool) -> Seq<u8> {
    seq![0x1bu8, 0x69, 0x4d, if auto_cut { 0x40 } else { 0x00 }]
}

pub fn various_mode_settings_bytes(auto_cut: bool) -> (r: Vec<u8>)
    ensures
        r@ == mode_settings(auto_cut),
{
    let mode: u8 = if auto_cut {
        0x40
    } else {
        0x00
    };
    let r = vec![0x1b, 0x69, 0x4d, mode];
    assert(r@ =~= mode_settings(auto_cut));
    r
}

/// Advanced modes: whether to cut half through the tape between labels. That
/// labels are not chained by the printer itself is always said.
pub open spec fn advanced_settings(half_cut: bool) -> Seq<u8> {
    seq![0x1bu8, 0x69, 0x4b, if half_cut { 0x0c } else { 0x08 }]
}

pub fn advanced_mode_settings_bytes(half_cut: bool) -> (r: Vec<u8>)
    ensures
        r@ == advanced_settings(half_cut),
{
    let mode: u8 = if half_cut {
        0x0c
    } else {
        0x08
    };
    let r = vec![0x1b, 0x69, 0x4b, mode];
    assert(r@ =~= advanced_settings(half_cut));
    r
}

// ── One line ────────────────────────────────────────────────────────────

/// Whether a pin of the head prints at feed step `x`: the label's column there
/// begins behind the margin.
pub open spec fn pin_prints(label: Raster, x: int, margin_pins: int, pin: int) -> bool {
    margin_pins <= pin < margin_pins + label.height && label.ink(x, pin - margin_pins)
}

pub open spec fn weight(prints: bool, value: int) -> int {
    if prints {
        value
    } else {
        0
    }
}

/// Eight pins as a byte, the first pin the highest bit.
pub open spec fn pins_byte(label: Raster, x: int, margin_pins: int, k: int) -> u8 {
    (weight(pin_prints(label, x, margin_pins, 8 * k), 128) + weight(
        pin_prints(label, x, margin_pins, 8 * k + 1),
        64,
    ) + weight(pin_prints(label, x, margin_pins, 8 * k + 2), 32) + weight(
        pin_prints(label, x, margin_pins, 8 * k + 3),
        16,
    ) + weight(pin_prints(label, x, margin_pins, 8 * k + 4), 8) + weight(
        pin_prints(label, x, margin_pins, 8 * k + 5),
        4,
    ) + weight(pin_prints(label, x, margin_pins, 8 * k + 6), 2) + weight(
        pin_prints(label, x, margin_pins, 8 * k + 7),
        1,
    )) as u8
}

/// One line: a column of the label across the whole head.
pub open spec fn raster_line(label: Raster, x: int, margin_pins: int) -> Seq<u8> {
    Seq::new(16, |k: int| pins_byte(label, x, margin_pins, k))
}

fn pin_weight(label: &Raster, x: u32, margin_pins: u32, pin: u32, value: u8) -> (r: u8)
    requires
        label.wf(),
        x < label.width,
        margin_pins + label.height <= 128,
    ensures
        r == weight(
            pin_prints(*label, x as int, margin_pins as int, pin as int),
            value as int,
        ),
{
    if pin < margin_pins || pin >= margin_pins + label.height {
        return 0;
    }
    assert((pin - margin_pins) * label.width + x < label.width * label.height) by (nonlinear_arith)
        requires
            0 <= pin - margin_pins < label.height,
            0 <= x < label.width,
    ;
    if label.get(x, pin - margin_pins) {
        value
    } else {
        0
    }
}

/// The line for one feed step of a label: a column of the picture, one bit for
/// each pin, not a row of it.
pub fn packed_raster_line(label: &Raster, x: u32, margin_pins: u32) -> (r: Vec<u8>)
    requires
        label.wf(),
        x < label.width,
        margin_pins + label.height <= 128,
    ensures
        r@ == raster_line(*label, x as int, margin_pins as int),
{
    let mut out: Vec<u8> = Vec::new();
    let mut k: u32 = 0;
    while k < 16
        invariant
            k <= 16,
            label.wf(),
            x < label.width,
            margin_pins + label.height <= 128,
            out@ == raster_line(*label, x as int, margin_pins as int).take(k as int),
        decreases 16 - k,
    {
        let byte: u8 = pin_weight(label, x, margin_pins, 8 * k, 128) + pin_weight(
            label,
            x,
            margin_pins,
            8 * k + 1,
            64,
        ) + pin_weight(label, x, margin_pins, 8 * k + 2, 32) + pin_weight(
            label,
            x,
            margin_pins,
            8 * k + 3,
            16,
        ) + pin_weight(label, x, margin_pins, 8 * k + 4, 8) + pin_weight(
            label,
            x,
            margin_pins,
            8 * k + 5,
            4,
        ) + pin_weight(label, x, margin_pins, 8 * k + 6, 2) + pin_weight(
            label,
            x,
            margin_pins,
            8 * k + 7,
            1,
        );
        out.push(byte);
        assert(out@ =~= raster_line(*label, x as int, margin_pins as int).take(k + 1));
        k = k + 1;
    }
    assert(raster_line(*label, x as int, margin_pins as int).take(16) =~= raster_line(
        *label,
        x as int,
        margin_pins as int,
    ));
    out
}

proof fn lemma_bits(
    b0: bool,
    b1: bool,
    b2: bool,
    b3: bool,
    b4: bool,
    b5: bool,
    b6: bool,
    b7: bool,
    byte: u8,
)
    requires
        byte == weight(b0, 128) + weight(b1, 64) + weight(b2, 32) + weight(b3, 16) + weight(b4, 8)
            + weight(b5, 4) + weight(b6, 2) + weight(b7, 1),
    ensures
        (byte & 0x80u8 != 0) == b0,
        (byte & 0x40u8 != 0) == b1,
        (byte & 0x20u8 != 0) == b2,
        (byte & 0x10u8 != 0) == b3,
        (byte & 0x08u8 != 0) == b4,
        (byte & 0x04u8 != 0) == b5,
        (byte & 0x02u8 != 0) == b6,
        (byte & 0x01u8 != 0) == b7,
{
    let c0: u8 = if b0 { 128 } else { 0 };
    let c1: u8 = if b1 { 64 } else { 0 };
    let c2: u8 = if b2 { 32 } else { 0 };
    let c3: u8 = if b3 { 16 } else { 0 };
    let c4: u8 = if b4 { 8 } else { 0 };
    let c5: u8 = if b5 { 4 } else { 0 };
    let c6: u8 = if b6 { 2 } else { 0 };
    let c7: u8 = if b7 { 1 } else { 0 };
    assert((byte & 0x80u8 != 0) == (c0 != 0) && (byte & 0x40u8 != 0) == (c1 != 0) && (byte & 0x20u8
        != 0) == (c2 != 0) && (byte & 0x10u8 != 0) == (c3 != 0) && (byte & 0x08u8 != 0) == (c4 != 0)
        && (byte & 0x04u8 != 0) == (c5 != 0) && (byte & 0x02u8 != 0) == (c6 != 0) && (byte & 0x01u8
        != 0) == (c7 != 0)) by (bit_vector)
        requires
            byte == c0 + c1 + c2 + c3 + c4 + c5 + c6 + c7,
            c0 == 0 || c0 == 128,
            c1 == 0 || c1 == 64,
            c2 == 0 || c2 == 32,
            c3 == 0 || c3 == 16,
            c4 == 0 || c4 == 8,
            c5 == 0 || c5 == 4,
            c6 == 0 || c6 == 2,
            c7 == 0 || c7 == 1,
    ;
}

/// The bit that stands for the `j`th pin of a byte.
pub open spec fn bit_of(j: int) -> u8 {
    if j == 0 {
        0x80
    } else if j == 1 {
        0x40
    } else if j == 2 {
        0x20
    } else if j == 3 {
        0x10
    } else if j == 4 {
        0x08
    } else if j == 5 {
        0x04
    } else if j == 6 {
        0x02
    } else {
        0x01
    }
}

/// The bit of a pin is set exactly where the label has ink in that column, the
/// margin's width further down: a line carries a column, and nothing of it
/// lies in the margins.
pub proof fn a_line_carries_a_column(label: Raster, x: int, margin_pins: int, pin: int)
    requires
        0 <= pin < 128,
    ensures
        (raster_line(label, x, margin_pins)[pin / 8] & bit_of(pin % 8) != 0) == pin_prints(
            label,
            x,
            margin_pins,
            pin,
        ),
{
    let k = pin / 8;
    lemma_bits(
        pin_prints(label, x, margin_pins, 8 * k),
        pin_prints(label, x, margin_pins, 8 * k + 1),
        pin_prints(label, x, margin_pins, 8 * k + 2),
        pin_prints(label, x, margin_pins, 8 * k + 3),
        pin_prints(label, x, margin_pins, 8 * k + 4),
        pin_prints(label, x, margin_pins, 8 * k + 5),
        pin_prints(label, x, margin_pins, 8 * k + 6),
        pin_prints(label, x, margin_pins, 8 * k + 7),
        pins_byte(label, x, margin_pins, k),
    );
}

// ── Compression ─────────────────────────────────────────────────────────

/// How many bytes from the start are the same as the first.
pub open spec fn run_length(s: Seq<u8>) -> int
    decreases s.len(),
{
    if s.len() <= 1 || s[0] != s[1] {
        if s.len() == 0 {
            0
        } else {
            1
        }
    } else {
        1 + run_length(s.skip(1))
    }
}

/// How many bytes from the start stand alone before two that are the same, or
/// before the end.
pub open spec fn literal_length(s: Seq<u8>) -> int
    decreases s.len(),
{
    if s.len() <= 1 {
        s.len() as int
    } else if s[0] == s[1] {
        0
    } else {
        1 + literal_length(s.skip(1))
    }
}

proof fn lemma_run(s: Seq<u8>)
    requires
        s.len() > 0,
    ensures
        1 <= run_length(s) <= s.len(),
        forall|i: int| 0 <= i < run_length(s) ==> #[trigger] s[i] == s[0],
        run_length(s) < s.len() ==> s[run_length(s)] != s[0],
    decreases s.len(),
{
    if s.len() > 1 && s[0] == s[1] {
        let d = s.skip(1);
        lemma_run(d);
        assert forall|i: int| 0 <= i < run_length(s) implies #[trigger] s[i] == s[0] by {
            if i > 0 {
                assert(d[i - 1] == d[0]);
            }
        }
    }
}

proof fn lemma_run_is(s: Seq<u8>, n: int)
    requires
        1 <= n <= s.len(),
        forall|i: int| 0 <= i < n ==> #[trigger] s[i] == s[0],
        n < s.len() ==> s[n] != s[0],
    ensures
        run_length(s) == n,
{
    lemma_run(s);
    if run_length(s) < n {
        assert(s[run_length(s)] == s[0]);
    }
    if run_length(s) > n {
        assert(s[n] == s[0]);
    }
}

proof fn lemma_literal(s: Seq<u8>)
    requires
        s.len() > 0,
        run_length(s) < 2,
    ensures
        1 <= literal_length(s) <= s.len(),
    decreases s.len(),
{
    lemma_run(s);
    if s.len() > 1 {
        lemma_literal_bound(s.skip(1));
    }
}

proof fn lemma_literal_bound(s: Seq<u8>)
    ensures
        0 <= literal_length(s) <= s.len(),
    decreases s.len(),
{
    if s.len() > 1 && s[0] != s[1] {
        lemma_literal_bound(s.skip(1));
    }
}

/// PackBits: two or more equal bytes become a count byte, 257 less their
/// number, and one of them; bytes that stand alone become a count byte, one
/// less than their number, and themselves.
pub open spec fn packed(s: Seq<u8>) -> Seq<u8>
    decreases s.len(),
    when s.len() <= 128
    via packed_ends
{
    if s.len() == 0 {
        Seq::empty()
    } else if run_length(s) >= 2 {
        seq![(257 - run_length(s)) as u8, s[0]] + packed(s.skip(run_length(s)))
    } else {
        seq![(literal_length(s) - 1) as u8] + s.take(literal_length(s)) + packed(
            s.skip(literal_length(s)),
        )
    }
}

#[via_fn]
proof fn packed_ends(s: Seq<u8>) {
    if s.len() > 0 {
        lemma_run(s);
        if run_length(s) < 2 {
            lemma_literal(s);
        }
    }
}

/// What a PackBits decoder makes of some bytes: a count byte up to 127 is
/// followed by one byte more than it says, one above 128 by a single byte that
/// stands for 257 less the count, and 128 by nothing.
pub open spec fn unpacked(s: Seq<u8>) -> Seq<u8>
    decreases s.len(),
{
    if s.len() == 0 {
        Seq::empty()
    } else if s[0] <= 127 {
        if s.len() < s[0] + 2 {
            Seq::empty()
        } else {
            s.subrange(1, s[0] + 2) + unpacked(s.skip(s[0] + 2))
        }
    } else if s[0] == 128 {
        unpacked(s.skip(1))
    } else if s.len() < 2 {
        Seq::empty()
    } else {
        Seq::new((257 - s[0]) as nat, |i: int| s[1]) + unpacked(s.skip(2))
    }
}

/// Unpacking gives back what was packed.
pub proof fn unpacking_gives_back_what_was_packed(s: Seq<u8>)
    requires
        s.len() <= 128,
    ensures
        unpacked(packed(s)) == s,
    decreases s.len(),
{
    let p = packed(s);
    if s.len() > 0 {
        lemma_run(s);
        let n = run_length(s);
        if n >= 2 {
            let rest = packed(s.skip(n));
            unpacking_gives_back_what_was_packed(s.skip(n));
            assert(p.skip(2) =~= rest);
            assert(p[0] == (257 - n) as u8 && p[1] == s[0]);
            assert(Seq::new((257 - p[0]) as nat, |i: int| p[1]) =~= s.take(n));
            assert(s =~= s.take(n) + s.skip(n));
        } else {
            lemma_literal(s);
            let m = literal_length(s);
            let rest = packed(s.skip(m));
            unpacking_gives_back_what_was_packed(s.skip(m));
            assert(p[0] == (m - 1) as u8);
            assert(p.subrange(1, m + 1) =~= s.take(m));
            assert(p.skip(m + 1) =~= rest);
            assert(s =~= s.take(m) + s.skip(m));
        }
    }
}

/// Packing at most doubles what it packs.
pub proof fn lemma_packed_length(s: Seq<u8>)
    requires
        s.len() <= 128,
    ensures
        packed(s).len() <= 2 * s.len(),
    decreases s.len(),
{
    if s.len() > 0 {
        lemma_run(s);
        if run_length(s) >= 2 {
            lemma_packed_length(s.skip(run_length(s)));
        } else {
            lemma_literal(s);
            lemma_packed_length(s.skip(literal_length(s)));
        }
    }
}

fn run_at(data: &Vec<u8>, from: usize) -> (r: usize)
    requires
        from < data@.len(),
    ensures
        r == run_length(data@.skip(from as int)),
        1 <= r <= data@.len() - from,
{
    let total: usize = data.len();
    let mut n: usize = 1;
    while n < total - from && data[from + n] == data[from]
        invariant
            total == data@.len(),
            from < total,
            1 <= n,
            from + n <= data@.len(),
            forall|i: int| 0 <= i < n ==> #[trigger] data@.skip(from as int)[i] == data@[from as int],
        decreases data@.len() - from - n,
    {
        n = n + 1;
    }
    proof {
        let s = data@.skip(from as int);
        assert(s[0] == data@[from as int]);
        if from + n < data@.len() {
            assert(s[n as int] == data@[from + n]);
        }
        lemma_run_is(s, n as int);
    }
    n
}

fn literal_at(data: &Vec<u8>, from: usize) -> (r: usize)
    requires
        from < data@.len(),
        run_length(data@.skip(from as int)) < 2,
    ensures
        r == literal_length(data@.skip(from as int)),
        1 <= r <= data@.len() - from,
{
    let total: usize = data.len();
    let mut n: usize = 0;
    proof {
        lemma_literal(data@.skip(from as int));
        lemma_run(data@.skip(from as int));
    }
    while n + 1 < total - from && data[from + n] != data[from + n + 1]
        invariant
            total == data@.len(),
            from < total,
            from + n < data@.len(),
            literal_length(data@.skip(from as int)) == n + literal_length(
                data@.skip((from + n) as int),
            ),
        decreases data@.len() - from - n,
    {
        proof {
            let s = data@.skip((from + n) as int);
            assert(s[0] == data@[from + n] && s[1] == data@[from + n + 1]);
            assert(s.skip(1) =~= data@.skip((from + n + 1) as int));
        }
        n = n + 1;
    }
    proof {
        let s = data@.skip((from + n) as int);
        if s.len() > 1 {
            assert(s[0] == data@[from + n] && s[1] == data@[from + n + 1]);
        }
    }
    if n + 1 == total - from {
        n + 1
    } else {
        n
    }
}

/// PackBits of a line. Runs of up to 128 bytes need no splitting, and a line
/// is far shorter.
pub fn pack_bits(data: &Vec<u8>) -> (r: Vec<u8>)
    requires
        data@.len() <= 128,
    ensures
        r@ == packed(data@),
{
    let mut out: Vec<u8> = Vec::new();
    let mut i: usize = 0;
    assert(data@.skip(0) =~= data@);
    while i < data.len()
        invariant
            data@.len() <= 128,
            i <= data@.len(),
            out@ + packed(data@.skip(i as int)) == packed(data@),
        decreases data@.len() - i,
    {
        let ghost rest = data@.skip(i as int);
        let ghost before = out@;
        let run = run_at(data, i);
        if run >= 2 {
            out.push((257 - run) as u8);
            out.push(data[i]);
            i = i + run;
            proof {
                assert(rest.skip(run as int) =~= data@.skip(i as int));
                assert(out@ + packed(data@.skip(i as int)) =~= before + packed(rest));
            }
        } else {
            let len = literal_at(data, i);
            out.push((len - 1) as u8);
            let mut k: usize = 0;
            let ghost head = out@;
            while k < len
                invariant
                    k <= len,
                    data@.len() <= 128,
                    i + len <= data@.len(),
                    out@ == head + data@.subrange(i as int, i + k),
                decreases len - k,
            {
                out.push(data[i + k]);
                assert(out@ =~= head + data@.subrange(i as int, i + k + 1));
                k = k + 1;
            }
            proof {
                assert(rest.skip(len as int) =~= data@.skip(i + len));
                assert(rest.take(len as int) =~= data@.subrange(i as int, i + len));
                assert(out@ + packed(data@.skip(i + len)) =~= before + packed(rest));
            }
            i = i + len;
        }
    }
    assert(data@.skip(data@.len() as int).len() == 0);
    assert(out@ =~= packed(data@));
    out
}

// ── The job ─────────────────────────────────────────────────────────────

pub open spec fn all_zero(s: Seq<u8>) -> bool {
    forall|i: int| 0 <= i < s.len() ==> #[trigger] s[i] == 0
}

/// A line as it is sent: one byte where nothing prints, else its length and
/// itself, packed.
pub open spec fn sent_line(line: Seq<u8>) -> Seq<u8> {
    if all_zero(line) {
        seq![0x5au8]
    } else {
        seq![0x47u8, (packed(line).len() % 256) as u8, (packed(line).len() / 256) as u8] + packed(
            line,
        )
    }
}

fn raster_line_bytes(line: &Vec<u8>) -> (r: Vec<u8>)
    requires
        line@.len() <= 128,
    ensures
        r@ == sent_line(line@),
{
    let mut i: usize = 0;
    let mut blank = true;
    while i < line.len()
        invariant
            i <= line@.len(),
            blank == all_zero(line@.take(i as int)),
        decreases line@.len() - i,
    {
        assert forall|j: int| 0 <= j < i implies line@.take(i as int)[j] == line@.take(i + 1)[j] by {
        }
        if line[i] != 0 {
            assert(line@.take(i + 1)[i as int] != 0);
            blank = false;
        } else if blank {
            assert(all_zero(line@.take(i + 1))) by {
                assert forall|j: int| 0 <= j < i + 1 implies #[trigger] line@.take(i + 1)[j]
                    == 0 by {
                    if j < i {
                        assert(line@.take(i as int)[j] == 0);
                    }
                }
            }
        } else {
            let ghost j = choose|j: int| 0 <= j < i && line@.take(i as int)[j] != 0;
            assert(line@.take(i + 1)[j] != 0);
        }
        i = i + 1;
    }
    assert(line@.take(line@.len() as int) =~= line@);
    if blank {
        return vec![0x5a];
    }
    let mut packed_line = pack_bits(line);
    proof {
        lemma_packed_length(line@);
    }
    let len = packed_line.len();
    let mut out: Vec<u8> = vec![0x47, (len % 256) as u8, (len / 256) as u8];
    assert(out@ =~= seq![0x47u8, (len % 256) as u8, (len / 256) as u8]);
    out.append(&mut packed_line);
    out
}

/// The first `n` lines of a label, as they are sent.
pub open spec fn sent_lines(label: Raster, margin_pins: int, n: int) -> Seq<u8>
    decreases n,
{
    if n <= 0 {
        Seq::empty()
    } else {
        sent_lines(label, margin_pins, n - 1) + sent_line(raster_line(label, n - 1, margin_pins))
    }
}

/// Whether a label is cut off: a chained job cuts through only where it does
/// not cut half through, and any other job cuts after every label.
pub open spec fn cuts(chain: bool, half_cut: bool) -> (bool, bool) {
    if chain {
        (!half_cut, half_cut)
    } else {
        (true, true)
    }
}

/// Everything that is sent for one label. The last one of a job is fed out, and
/// so is every label of a job that is not chained.
pub open spec fn sent_label(
    label: Raster,
    margin_pins: int,
    tape_mm: u8,
    chain: bool,
    half_cut: bool,
    last: bool,
) -> Seq<u8> {
    let (auto, half) = cuts(chain, half_cut);
    seq![0x1bu8, 0x69, 0x61, 0x01] + information(tape_mm, label.width) + mode_settings(auto) + (
    if auto {
        seq![0x1bu8, 0x69, 0x41, 0x01]
    } else {
        Seq::empty()
    }) + advanced_settings(half) + seq![0x1bu8, 0x69, 0x64, 14, 0] + seq![0x4du8, 0x02]
        + sent_lines(label, margin_pins, label.width as int) + seq![
        if last || !chain {
            0x1au8
        } else {
            0x0c
        },
    ]
}

/// Everything that is sent for the first `n` labels.
pub open spec fn sent_labels(
    labels: Seq<Raster>,
    margin_pins: int,
    tape_mm: u8,
    chain: bool,
    half_cut: bool,
    n: int,
) -> Seq<u8>
    decreases n,
{
    if n <= 0 {
        Seq::empty()
    } else {
        sent_labels(labels, margin_pins, tape_mm, chain, half_cut, n - 1) + sent_label(
            labels[n - 1],
            margin_pins,
            tape_mm,
            chain,
            half_cut,
            n == labels.len(),
        )
    }
}

/// A whole job: two hundred zeros and a reset, to clear whatever an earlier job
/// left behind, and the labels.
pub open spec fn sent_job(
    labels: Seq<Raster>,
    tape_mm_x10: i64,
    chain: bool,
    half_cut: bool,
) -> Option<Seq<u8>> {
    match pins(tape_mm_x10 as int) {
        Some((margin, _)) => Some(
            Seq::new(200, |i: int| 0u8) + seq![0x1bu8, 0x40] + sent_labels(
                labels,
                margin as int,
                (tape_mm_x10 as int / 10) as u8,
                chain,
                half_cut,
                labels.len() as int,
            ),
        ),
        None => None,
    }
}

fn label_bytes(
    label: &Raster,
    margin_pins: u32,
    tape_mm: u8,
    chain: bool,
    half_cut: bool,
    last: bool,
) -> (r: Vec<u8>)
    requires
        label.wf(),
        margin_pins + label.height <= 128,
    ensures
        r@ == sent_label(*label, margin_pins as int, tape_mm, chain, half_cut, last),
{
    let auto_cut = !chain || !half_cut;
    let half = !chain || half_cut;
    let mut out: Vec<u8> = vec![0x1b, 0x69, 0x61, 0x01];
    assert(out@ =~= seq![0x1bu8, 0x69, 0x61, 0x01]);
    out.append(&mut print_information_bytes(tape_mm, label.width));
    out.append(&mut various_mode_settings_bytes(auto_cut));
    let ghost so_far = out@;
    if auto_cut {
        let mut part: Vec<u8> = vec![0x1b, 0x69, 0x41, 0x01];
        assert(part@ =~= seq![0x1bu8, 0x69, 0x41, 0x01]);
        out.append(&mut part);
    }
    assert(out@ =~= so_far + (if auto_cut {
        seq![0x1bu8, 0x69, 0x41, 0x01]
    } else {
        Seq::empty()
    }));
    out.append(&mut advanced_mode_settings_bytes(half));
    let mut margin: Vec<u8> = vec![0x1b, 0x69, 0x64, 14, 0];
    assert(margin@ =~= seq![0x1bu8, 0x69, 0x64, 14, 0]);
    out.append(&mut margin);
    let mut compression: Vec<u8> = vec![0x4d, 0x02];
    assert(compression@ =~= seq![0x4du8, 0x02]);
    out.append(&mut compression);
    let ghost head = out@;
    let mut x: u32 = 0;
    assert(out@ =~= head + sent_lines(*label, margin_pins as int, 0));
    while x < label.width
        invariant
            x <= label.width,
            label.wf(),
            margin_pins + label.height <= 128,
            out@ == head + sent_lines(*label, margin_pins as int, x as int),
        decreases label.width - x,
    {
        let line = packed_raster_line(label, x, margin_pins);
        let ghost before = out@;
        out.append(&mut raster_line_bytes(&line));
        assert(out@ =~= head + sent_lines(*label, margin_pins as int, x + 1));
        x = x + 1;
    }
    let end: u8 = if last || !chain {
        0x1a
    } else {
        0x0c
    };
    out.push(end);
    assert(out@ =~= head + sent_lines(*label, margin_pins as int, label.width as int) + seq![end]);
    out
}

/// Everything to send for a job of labels, or the reason why it cannot be
/// printed. `chain` is whether several labels hang together; only then does
/// `half_cut` choose how they are cut.
pub fn job_bytes(labels: &Vec<Raster>, tape_mm_x10: i64, chain: bool, half_cut: bool) -> (r: Result<
    Vec<u8>,
    String,
>)
    requires
        pins(tape_mm_x10 as int) matches Some((_, area)) ==> forall|i: int|
            0 <= i < labels@.len() ==> (#[trigger] labels@[i]).wf() && labels@[i].height == area,
    ensures
        match r {
            Ok(bytes) => sent_job(labels@, tape_mm_x10, chain, half_cut) == Some(bytes@),
            Err(e) => sent_job(labels@, tape_mm_x10, chain, half_cut) is None && e@
                == "unsupported tape width"@,
        },
{
    let (margin_pins, area) = match head_layout(tape_mm_x10) {
        Some(p) => p,
        None => return Err("unsupported tape width".to_string()),
    };
    let tape_mm: u8 = (tape_mm_x10 / 10) as u8;
    let mut out: Vec<u8> = Vec::new();
    let mut i: usize = 0;
    while i < 200
        invariant
            i <= 200,
            out@ == Seq::new(i as nat, |j: int| 0u8),
        decreases 200 - i,
    {
        out.push(0);
        assert(out@ =~= Seq::new((i + 1) as nat, |j: int| 0u8));
        i = i + 1;
    }
    out.push(0x1b);
    out.push(0x40);
    let ghost head = out@;
    assert(head =~= Seq::new(200, |i: int| 0u8) + seq![0x1bu8, 0x40]);
    let mut k: usize = 0;
    assert(out@ =~= head + sent_labels(
        labels@,
        margin_pins as int,
        tape_mm,
        chain,
        half_cut,
        0,
    ));
    while k < labels.len()
        invariant
            k <= labels@.len(),
            2 * margin_pins + area == 128,
            forall|i: int|
                0 <= i < labels@.len() ==> (#[trigger] labels@[i]).wf() && labels@[i].height
                    == area,
            out@ == head + sent_labels(
                labels@,
                margin_pins as int,
                tape_mm,
                chain,
                half_cut,
                k as int,
            ),
        decreases labels@.len() - k,
    {
        assert(labels@[k as int].wf() && labels@[k as int].height == area);
        let ghost before = out@;
        out.append(
            &mut label_bytes(
                &labels[k],
                margin_pins,
                tape_mm,
                chain,
                half_cut,
                k + 1 == labels.len(),
            ),
        );
        assert(out@ =~= head + sent_labels(
            labels@,
            margin_pins as int,
            tape_mm,
            chain,
            half_cut,
            k + 1,
        ));
        k = k + 1;
    }
    Ok(out)
}

} // verus!
