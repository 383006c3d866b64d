//! What a label looks like, told of its dots.

use vstd::prelude::*;
use crate::labels::{
    covers, dots_for, drafts_label, is_composed, payload_of, pins, shows_symbol, symbol_of,
    text_size, Composition, InkBounds, LabelDraft, Raster, QUIET_MODULES,
};
use crate::num::half_away;
use crate::text::{all_digits, digits_value, nat_text, parsed_int};
use crate::text_laws::a_padded_number_is_the_number;

verus! {

/// Whether there is ink on a canvas: its dots are kept row by row.
pub open spec fn dot(r: Raster, x: int, y: int) -> bool {
    0 <= x < r.width && 0 <= y < r.height && r.pixels@[y * r.width + x]
}

// ── What is encoded ─────────────────────────────────────────────────────

/// A label encodes three digits that write its battery's number, and there are
/// labels for the numbers that three digits can write, from one on.
pub proof fn a_label_encodes_three_digits(id: i64)
    ensures
        payload_of(id) is Ok <==> 1 <= id <= 999,
        payload_of(id) matches Ok(p) ==> p.len() == 3 && all_digits(p) && digits_value(p) == id,
{
    if 1 <= id <= 999 {
        let n = id as nat;
        crate::text::lemma_nat_text_digits(n);
        crate::text::lemma_zero_filled_digits(nat_text(n), 3);
        lemma_short(n);
    }
}

proof fn lemma_short(n: nat)
    requires
        n < 1000,
    ensures
        nat_text(n).len() <= 3,
{
    if n >= 10 {
        assert(n / 10 < 100);
        if n / 10 >= 10 {
            assert(n / 10 / 10 < 10);
            assert(nat_text(n / 10 / 10).len() == 1);
            assert(nat_text(n / 10).len() == 2);
        }
    }
}

// ── The symbol ──────────────────────────────────────────────────────────

/// A module of a symbol is a square of dots, one module in from the left and the
/// top: ink throughout where the module is dark, and none where it is not.
pub proof fn a_module_is_a_square_of_dots(
    r: Raster,
    width: int,
    dark: Seq<(usize, usize)>,
    dots: int,
    px: usize,
    py: usize,
    a: int,
    b: int,
)
    requires
        shows_symbol(r, width, dark, dots),
        px < width,
        py < width,
        0 <= a < dots,
        0 <= b < dots,
    ensures
        dot(r, (px + 1) * dots + a, (py + 1) * dots + b) == dark.contains((px, py)),
{
    let x = (px + 1) * dots + a;
    let y = (py + 1) * dots + b;
    assert(0 <= x < (width + 2) * dots && 0 <= y < (width + 2) * dots) by (nonlinear_arith)
        requires
            x == (px + 1) * dots + a,
            y == (py + 1) * dots + b,
            0 <= px < width,
            0 <= py < width,
            0 <= a < dots,
            0 <= b < dots,
    ;
    assert(r.inside(x, y));
    assert((px + 1 + 1) * dots == (px + 1) * dots + dots && (py + 1 + 1) * dots == (py + 1) * dots
        + dots) by (nonlinear_arith);
    if dark.contains((px, py)) {
        let i = dark.index_of((px, py));
        assert(covers(dark[i], dots, x, y));
    }
    if r.ink(x, y) {
        let i = choose|i: int| 0 <= i < dark.len() && covers(#[trigger] dark[i], dots, x, y);
        lemma_same_module(dark[i].0 as int, px as int, dots, x, a);
        lemma_same_module(dark[i].1 as int, py as int, dots, y, b);
        assert(dark[i] == (px, py));
    }
}

proof fn lemma_same_module(q: int, p: int, dots: int, x: int, a: int)
    requires
        (q + 1) * dots <= x < (q + 2) * dots,
        x == (p + 1) * dots + a,
        0 <= a < dots,
    ensures
        q == p,
{
    assert(q == p) by (nonlinear_arith)
        requires
            (q + 1) * dots <= x < (q + 2) * dots,
            x == (p + 1) * dots + a,
            0 <= a < dots,
    ;
}

/// The symbol is square, with a margin of one module all around.
pub proof fn a_symbol_is_square(r: Raster, width: int, dark: Seq<(usize, usize)>, dots: int)
    requires
        shows_symbol(r, width, dark, dots),
    ensures
        r.width == (width + 2) * dots,
        r.height == r.width,
{
}

/// A module takes four dots, or as many as the symbol leaves room for on the
/// tape, but never fewer than two.
pub proof fn a_symbol_is_as_large_as_fits(modules: int, height: int)
    requires
        modules > 0,
    ensures
        2 <= dots_for(modules, height) <= 4,
        dots_for(modules, height) > 2 ==> modules * dots_for(modules, height) <= height,
        dots_for(modules, height) < 4 ==> modules * (dots_for(modules, height) + 1) > height,
{
}

/// The text is as high as its share of the tape says, to the nearest dot, and at
/// least eight dots.
pub proof fn the_text_has_its_share(height: int, num: int, den: int)
    requires
        den > 0,
    ensures
        text_size(height, num, den) >= 8,
        -den <= 2 * (den * text_size(height, num, den) - height * num),
        text_size(height, num, den) > 8 ==> 2 * (den * text_size(height, num, den) - height * num)
            <= den,
{
    let n = height * num;
    let a = if n >= 0 {
        2 * n + den
    } else {
        -2 * n + den
    };
    let q = a / (2 * den);
    let size = half_away(n, den);
    vstd::arithmetic::div_mod::lemma_fundamental_div_mod(a, 2 * den);
    assert(2 * den * q == 2 * (den * q)) by (nonlinear_arith);
    assert(den * (-q) == -(den * q)) by (nonlinear_arith);
    if size < 8 {
        assert(den * 8 >= den * size) by (nonlinear_arith)
            requires
                den > 0,
                size < 8,
        ;
    }
}

/// The wider a tape, the more of the head prints on it; the widest takes all.
pub proof fn a_wider_tape_takes_more(a: int, b: int)
    requires
        a < b,
    ensures
        pins(a) matches Some((_, x)) ==> (pins(b) matches Some((_, y)) ==> x < y),
        pins(240) matches Some((0, 128)),
{
}

// ── The whole label ─────────────────────────────────────────────────────

/// On a label the symbol stands six dots from the left, in the middle from top
/// to bottom, with nothing of it lost across. Eight dots behind it stands the
/// text, in the middle too and six dots from the right.
pub proof fn a_label_holds_symbol_and_text(
    r: Composition,
    draft: LabelDraft,
    bounds: InkBounds,
    x: int,
    y: int,
)
    requires
        is_composed(r, draft, bounds),
        draft.symbol.height <= draft.height,
        bounds.min_x <= bounds.max_x,
        0 <= x < draft.symbol.width,
        0 <= y < draft.symbol.height,
    ensures
        ({
            let above = (draft.height - draft.symbol.height) / 2;
            let below = draft.height - draft.symbol.height - above;
            &&& 0 <= below - above <= 1
            &&& r.raster.height == draft.height
            &&& dot(r.raster, 6 + x, above + y) == dot(draft.symbol, x, y)
            &&& r.draw_x + bounds.min_x == 6 + draft.symbol.width + 8
            &&& r.draw_x + bounds.max_x + 6 == r.raster.width
            &&& r.draw_y_halves + 2 * bounds.min_y == 2 * draft.height - (r.draw_y_halves + 2
                * bounds.max_y)
        }),
{
    let above = (draft.height - draft.symbol.height) / 2;
    assert(r.raster.inside(6 + x, above + y));
    assert(draft.symbol.inside(x, y));
    assert(r.raster.ink(6 + x, above + y) == draft.symbol.ink(x, y));
}

/// Beside its symbol a label is blank until the text is drawn.
pub proof fn the_rest_of_a_label_is_blank(
    r: Composition,
    draft: LabelDraft,
    bounds: InkBounds,
    x: int,
    y: int,
)
    requires
        is_composed(r, draft, bounds),
        draft.symbol.height <= draft.height,
        x < 6 || x >= 6 + draft.symbol.width || y < (draft.height - draft.symbol.height) / 2 || y
            >= (draft.height - draft.symbol.height) / 2 + draft.symbol.height,
    ensures
        !dot(r.raster, x, y),
{
    if 0 <= x < r.raster.width && 0 <= y < r.raster.height {
        assert(r.raster.inside(x, y));
        let above = (draft.height - draft.symbol.height) / 2;
        assert(!draft.symbol.inside(x - 6, y - above));
        assert(!r.raster.ink(x, y));
    }
}

/// A label is made for a battery's number on the tape that is asked for: its text
/// is the number in at least three places, its height that of the print area, and
/// its symbol that of the text, as large as fits there.
pub proof fn a_label_is_made_for_its_tape(
    r: Result<LabelDraft, String>,
    id: i64,
    tape: i64,
    num: int,
    den: int,
)
    requires
        den > 0,
        drafts_label(r, id, tape, num, den),
    ensures
        r is Ok <==> pins(tape as int) is Some && payload_of(id) is Ok && symbol_of(
            payload_of(id)->Ok_0,
        ) is Ok,
        r matches Ok(d) ==> {
            &&& pins(tape as int) matches Some((_, area)) && d.height == area
            &&& d.id_text@.len() >= 3
            &&& parsed_int(d.id_text@) == Some(id)
            &&& d.symbol.width == d.symbol.height
            &&& symbol_of(d.id_text@) matches Ok((modules, _)) && {
                let across = modules + 2 * QUIET_MODULES;
                &&& d.symbol.width == 4 * across || d.symbol.width == 3 * across || d.symbol.width
                    == 2 * across
                &&& d.symbol.width <= d.height || d.symbol.width == 2 * across
                &&& d.symbol.width < 4 * across ==> d.symbol.width + across > d.height
            }
            &&& d.size_px >= 8
            &&& -den <= 2 * (den * d.size_px - d.height * num)
            &&& d.size_px > 8 ==> 2 * (den * d.size_px - d.height * num) <= den
        },
{
    if let Ok(d) = r {
        the_text_has_its_share(d.height as int, num, den);
        a_padded_number_is_the_number(id);
        let modules = symbol_of(d.id_text@)->Ok_0.0;
        let across = modules + 2 * QUIET_MODULES;
        let dots = dots_for(across, d.height as int);
        assert(across * dots == dots * across) by (nonlinear_arith);
    }
}

} // verus!
