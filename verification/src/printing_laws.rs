//! What a printer makes of a job: the labels, as they are drawn.

use vstd::prelude::*;
use crate::labels::{pins, Raster};
use crate::printing::{
    a_line_carries_a_column, all_zero, bit_of, lemma_packed_length, packed, raster_line, sent_job,
    sent_label, sent_labels, sent_line, sent_lines, unpacked,
    unpacking_gives_back_what_was_packed,
};

verus! {

/// The lines that a printer reads out of raster commands: `Z` is a line of
/// sixteen zeros, `G` is followed by the length of a packed line, the lower byte
/// first, and the line. Nothing else is a raster command.
pub open spec fn lines_read(s: Seq<u8>) -> Option<Seq<Seq<u8>>>
    decreases s.len(),
{
    if s.len() == 0 {
        Some(Seq::empty())
    } else if s[0] == 0x5a {
        match lines_read(s.skip(1)) {
            Some(more) => Some(seq![Seq::new(16, |i: int| 0u8)] + more),
            None => None,
        }
    } else if s[0] == 0x47 && s.len() >= 3 && s.len() >= 3 + s[1] + 256 * s[2] {
        match lines_read(s.skip(3 + s[1] + 256 * s[2])) {
            Some(more) => Some(seq![unpacked(s.subrange(3, 3 + s[1] + 256 * s[2]))] + more),
            None => None,
        }
    } else {
        None
    }
}

/// Whether some lines, one for each step from the first to the last, put ink
/// just where a label has it: step `x` is the column `x` from the left, and the
/// pins count from its top, the label in the middle of the head.
pub open spec fn draws(lines: Seq<Seq<u8>>, label: Raster) -> bool {
    &&& lines.len() == label.width
    &&& forall|x: int| 0 <= x < lines.len() ==> (#[trigger] lines[x]).len() == 16
    &&& forall|x: int, pin: int|
        0 <= x < label.width && 0 <= pin < 128 ==> #[trigger] prints_at(lines, x, pin) == ({
            let y = pin - (128 - label.height) / 2;
            0 <= y < label.height && label.pixels@[y * label.width + x]
        })
}

/// Whether a pin prints in a line; the first pin of a byte is its highest bit.
pub open spec fn prints_at(lines: Seq<Seq<u8>>, x: int, pin: int) -> bool {
    lines[x][pin / 8] & (0x80u8 >> ((pin % 8) as u8)) != 0
}

/// Whether some bytes make the printer print a label: they switch it to raster
/// mode, tell it the width of the tape in millimetres and the number of lines,
/// how to cut, the margin of fourteen dots and that lines are packed, and then
/// come the lines of the label and the order to print. A label that is the last
/// or not chained to the next one is fed out.
pub open spec fn prints(
    part: Seq<u8>,
    label: Raster,
    tape_mm_x10: int,
    chain: bool,
    half_cut: bool,
    last: bool,
) -> bool {
    exists|raster: Seq<u8>, lines: Seq<Seq<u8>>, w: Seq<u8>|
        #![trigger lines_read(raster), draws(lines, label), w.len()]
        {
            let each: u8 = if chain && half_cut {
                0
            } else {
                0x40
            };
            let half: u8 = if chain && !half_cut {
                0x08
            } else {
                0x0c
            };
            &&& lines_read(raster) == Some(lines)
            &&& draws(lines, label)
            &&& w.len() == 4
            &&& label.width == w[0] + 256 * w[1] + 65536 * w[2] + 16777216 * w[3]
            &&& part == seq![0x1bu8, 0x69, 0x61, 0x01] + seq![
                0x1bu8,
                0x69,
                0x7a,
                0x86,
                0x00,
                (tape_mm_x10 / 10) as u8,
                0x00,
            ] + w + seq![0x00u8, 0x00] + seq![0x1bu8, 0x69, 0x4d, each] + (if chain && half_cut {
                Seq::empty()
            } else {
                seq![0x1bu8, 0x69, 0x41, 0x01]
            }) + seq![0x1bu8, 0x69, 0x4b, half] + seq![0x1bu8, 0x69, 0x64, 0x0e, 0x00] + seq![
                0x4du8,
                0x02,
            ] + raster + seq![
                if chain && !last {
                    0x0cu8
                } else {
                    0x1a
                },
            ]
        }
}

/// What is sent for a job makes the printer print every label once, in turn and
/// just as it is drawn, after two hundred zeros and a reset.
pub proof fn a_job_prints_its_labels(
    labels: Seq<Raster>,
    tape_mm_x10: i64,
    chain: bool,
    half_cut: bool,
)
    requires
        pins(tape_mm_x10 as int) matches Some((_, area)) ==> forall|i: int|
            0 <= i < labels.len() ==> (#[trigger] labels[i]).wf() && labels[i].height == area,
    ensures
        sent_job(labels, tape_mm_x10, chain, half_cut) matches Some(job) ==> exists|
            parts: Seq<Seq<u8>>,
        |
            {
                &&& parts.len() == labels.len()
                &&& job == Seq::new(200, |i: int| 0u8) + seq![0x1bu8, 0x40] + (
                #[trigger] parts.flatten())
                &&& forall|i: int|
                    0 <= i < labels.len() ==> prints(
                        #[trigger] parts[i],
                        labels[i],
                        tape_mm_x10 as int,
                        chain,
                        half_cut,
                        i == labels.len() - 1,
                    )
            },
{
    if let Some((margin, area)) = pins(tape_mm_x10 as int) {
        let n = labels.len() as int;
        let tape = (tape_mm_x10 as int / 10) as u8;
        let parts = Seq::new(
            labels.len(),
            |i: int| sent_label(labels[i], margin as int, tape, chain, half_cut, i + 1 == n),
        );
        lemma_parts(labels, margin as int, tape, chain, half_cut, parts, n);
        assert(parts.take(n) =~= parts);
        assert forall|i: int| 0 <= i < labels.len() implies prints(
            #[trigger] parts[i],
            labels[i],
            tape_mm_x10 as int,
            chain,
            half_cut,
            i == labels.len() - 1,
        ) by {
            assert(labels[i].wf() && labels[i].height == area);
            lemma_label(
                labels[i],
                margin as int,
                tape_mm_x10 as int,
                chain,
                half_cut,
                i == labels.len() - 1,
            );
        }
        assert(sent_job(labels, tape_mm_x10, chain, half_cut)->0 == Seq::new(200, |i: int| 0u8)
            + seq![0x1bu8, 0x40] + parts.flatten());
    }
}

proof fn lemma_parts(
    labels: Seq<Raster>,
    margin: int,
    tape: u8,
    chain: bool,
    half_cut: bool,
    parts: Seq<Seq<u8>>,
    n: int,
)
    requires
        0 <= n <= labels.len(),
        parts == Seq::new(
            labels.len(),
            |i: int|
                sent_label(labels[i], margin, tape, chain, half_cut, i + 1 == labels.len()),
        ),
    ensures
        sent_labels(labels, margin, tape, chain, half_cut, n) == parts.take(n).flatten(),
    decreases n,
{
    if n > 0 {
        lemma_parts(labels, margin, tape, chain, half_cut, parts, n - 1);
        assert(parts.take(n).drop_last() =~= parts.take(n - 1));
        assert(parts.take(n).last() == parts[n - 1]);
        parts.take(n).lemma_flatten_and_flatten_alt_are_equivalent();
        parts.take(n - 1).lemma_flatten_and_flatten_alt_are_equivalent();
    } else {
        assert(parts.take(0).flatten() =~= Seq::empty());
    }
}

proof fn lemma_label(
    label: Raster,
    margin: int,
    tape_mm_x10: int,
    chain: bool,
    half_cut: bool,
    last: bool,
)
    requires
        label.wf(),
        2 * margin + label.height == 128,
        0 <= margin,
        0 <= tape_mm_x10 < 2560,
    ensures
        prints(
            sent_label(label, margin, (tape_mm_x10 / 10) as u8, chain, half_cut, last),
            label,
            tape_mm_x10,
            chain,
            half_cut,
            last,
        ),
{
    let tape = (tape_mm_x10 / 10) as u8;
    let n = label.width;
    let w0 = (n % 256) as u8;
    let w1 = (n / 256 % 256) as u8;
    let w2 = (n / 65536 % 256) as u8;
    let w3 = (n / 16777216) as u8;
    let raster = sent_lines(label, margin, label.width as int);
    let lines = Seq::new(label.width as nat, |x: int| raster_line(label, x, margin));
    lemma_lines(label, margin, label.width as int);
    assert(lines_read(raster) == Some(lines));
    assert(draws(lines, label)) by {
        assert forall|x: int, pin: int| 0 <= x < label.width && 0 <= pin < 128 implies
            #[trigger] prints_at(lines, x, pin) == ({
            let y = pin - (128 - label.height) / 2;
            0 <= y < label.height && label.pixels@[y * label.width + x]
        }) by {
            a_line_carries_a_column(label, x, margin, pin);
            lemma_bit(pin % 8);
            assert((128 - label.height) / 2 == margin);
            assert(lines[x] == raster_line(label, x, margin));
        }
    }
    let w = seq![w0, w1, w2, w3];
    assert(w.len() == 4);
    let part = sent_label(label, margin, tape, chain, half_cut, last);
    let each: u8 = if chain && half_cut {
        0
    } else {
        0x40
    };
    let half: u8 = if chain && !half_cut {
        0x08
    } else {
        0x0c
    };
    assert(crate::printing::le4(n) =~= w);
    assert(part =~= seq![0x1bu8, 0x69, 0x61, 0x01] + seq![
        0x1bu8,
        0x69,
        0x7a,
        0x86,
        0x00,
        tape,
        0x00,
    ] + w + seq![0x00u8, 0x00] + seq![0x1bu8, 0x69, 0x4d, each] + (if chain && half_cut {
        Seq::empty()
    } else {
        seq![0x1bu8, 0x69, 0x41, 0x01]
    }) + seq![0x1bu8, 0x69, 0x4b, half] + seq![0x1bu8, 0x69, 0x64, 0x0e, 0x00] + seq![
        0x4du8,
        0x02,
    ] + raster + seq![
        if chain && !last {
            0x0cu8
        } else {
            0x1a
        },
    ]);
}

proof fn lemma_bit(j: int)
    requires
        0 <= j < 8,
    ensures
        bit_of(j) == 0x80u8 >> (j as u8),
{
    assert(0x80u8 >> 0u8 == 0x80u8 && 0x80u8 >> 1u8 == 0x40u8 && 0x80u8 >> 2u8 == 0x20u8 && 0x80u8
        >> 3u8 == 0x10u8 && 0x80u8 >> 4u8 == 0x08u8 && 0x80u8 >> 5u8 == 0x04u8 && 0x80u8 >> 6u8
        == 0x02u8 && 0x80u8 >> 7u8 == 0x01u8) by (bit_vector);
}

/// What is sent for a line reads back as the line.
proof fn lemma_line(line: Seq<u8>, rest: Seq<u8>)
    requires
        line.len() == 16,
        lines_read(rest) is Some,
    ensures
        lines_read(sent_line(line) + rest) == Some(seq![line] + lines_read(rest)->0),
{
    let s = sent_line(line) + rest;
    if all_zero(line) {
        assert(s.skip(1) =~= rest);
        assert(line =~= Seq::new(16, |i: int| 0u8));
    } else {
        lemma_packed_length(line);
        let n = packed(line).len() as int;
        assert(s[1] + 256 * s[2] == n);
        assert(s.subrange(3, 3 + n) =~= packed(line));
        assert(s.skip(3 + n) =~= rest);
        unpacking_gives_back_what_was_packed(line);
    }
}

/// One command after others reads as one line more.
proof fn lemma_lines_append(s: Seq<u8>, line: Seq<u8>)
    requires
        line.len() == 16,
        lines_read(s) is Some,
    ensures
        lines_read(s + sent_line(line)) == Some(lines_read(s)->0.push(line)),
    decreases s.len(),
{
    let t = s + sent_line(line);
    if s.len() == 0 {
        assert(t =~= sent_line(line) + Seq::empty());
        lemma_line(line, Seq::empty());
        assert(seq![line] + Seq::<Seq<u8>>::empty() =~= Seq::<Seq<u8>>::empty().push(line));
    } else {
        let k = if s[0] == 0x5a {
            1int
        } else {
            3 + s[1] + 256 * s[2]
        };
        assert(t.skip(k) =~= s.skip(k) + sent_line(line));
        lemma_lines_append(s.skip(k), line);
        assert(t.subrange(3, 3 + s[1] + 256 * s[2]) =~= s.subrange(3, 3 + s[1] + 256 * s[2])
            || s[0] == 0x5a);
        assert(lines_read(t)->0 =~= lines_read(s)->0.push(line));
    }
}

proof fn lemma_lines(label: Raster, margin: int, n: int)
    requires
        0 <= n,
    ensures
        lines_read(sent_lines(label, margin, n)) == Some(
            Seq::new(n as nat, |x: int| raster_line(label, x, margin)),
        ),
    decreases n,
{
    if n > 0 {
        lemma_lines(label, margin, n - 1);
        let s = sent_lines(label, margin, n - 1);
        let line = raster_line(label, n - 1, margin);
        lemma_lines_append(s, line);
        assert(Seq::new((n - 1) as nat, |x: int| raster_line(label, x, margin)).push(line)
            =~= Seq::new(n as nat, |x: int| raster_line(label, x, margin)));
    } else {
        assert(Seq::new(0, |x: int| raster_line(label, x, margin)) =~= Seq::empty());
    }
}

} // verus!
