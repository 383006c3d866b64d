//! What a battery's label looks like: its payload, its Data Matrix and where
//! the parts of it stand.
//!
//! The payload is the battery id, zero-padded to three digits, so that every
//! label comes out the same size.

use datamatrix::{DataMatrix, SymbolList};
use vstd::prelude::*;
use vstd::string::*;
use crate::num::{half_away, round_half_away};
use crate::text::{
    digits_in, int_text, is_digit, only_digits, pad3, pad3_text, parse_i64, parsed_int, push_int,
    push_tenths, quote, quoted, tenths_text, trim, trimmed,
};

verus! {

// ── Payload ─────────────────────────────────────────────────────────────

pub const PAYLOAD_MIN_DIGITS: usize = 3;

pub const MAX_ID: i64 = 999;

/// What a label of battery `id` encodes, or why there can be none.
pub open spec fn payload_of(id: i64) -> Result<Seq<char>, Seq<char>> {
    if id < 1 {
        Err("A battery id must be a whole number of 1 or more, not "@ + int_text(id as int) + "."@)
    } else if id > MAX_ID {
        Err(
            "Battery id "@ + int_text(id as int) + " is above the limit of "@ + int_text(
                MAX_ID as int,
            ) + ". Ids are three digits so that every label comes out the same size."@,
        )
    } else {
        Ok(pad3_text(id as int))
    }
}

/// The text behind a result, as characters.
pub open spec fn text_result(r: Result<String, String>) -> Result<Seq<char>, Seq<char>> {
    match r {
        Ok(s) => Ok(s@),
        Err(e) => Err(e@),
    }
}

pub fn encode_payload(battery_id: i64) -> (r: Result<String, String>)
    ensures
        text_result(r) == payload_of(battery_id),
{
    if battery_id < 1 {
        let mut m = "A battery id must be a whole number of 1 or more, not ".to_string();
        push_int(&mut m, battery_id as i128);
        m.append(".");
        return Err(m);
    }
    if battery_id > MAX_ID {
        let mut m = "Battery id ".to_string();
        push_int(&mut m, battery_id as i128);
        m.append(" is above the limit of ");
        push_int(&mut m, MAX_ID as i128);
        m.append(". Ids are three digits so that every label comes out the same size.");
        return Err(m);
    }
    Ok(pad3(battery_id))
}

/// The battery that a scanned text names, or why it names none.
pub open spec fn scanned_id(scanned: Seq<char>) -> Result<i64, Seq<char>> {
    let text = trimmed(scanned);
    if text.len() == 0 {
        Err("Nothing was scanned."@)
    } else {
        match parsed_int(digits_in(text)) {
            Some(id) => Ok(id),
            None => Err(quoted(text) + " does not contain a battery id."@),
        }
    }
}

/// Leading zeros are discarded, so a label reading "007" and someone typing
/// "7" by hand reach the same battery.
pub fn decode_payload(scanned: &str) -> (r: Result<i64, String>)
    ensures
        match r {
            Ok(id) => scanned_id(scanned@) == Ok::<i64, Seq<char>>(id),
            Err(e) => scanned_id(scanned@) == Err::<i64, Seq<char>>(e@),
        },
{
    let text = trim(scanned);
    if text.is_empty() {
        return Err("Nothing was scanned.".to_string());
    }
    let digits = only_digits(text);
    match parse_i64(digits.as_str()) {
        Some(id) => Ok(id),
        None => {
            let mut m = quote(text);
            m.append(" does not contain a battery id.");
            Err(m)
        },
    }
}

/// Scanning a label gives back the battery it was made for.
pub proof fn scanning_a_label_finds_its_battery(id: i64)
    requires
        1 <= id <= MAX_ID,
    ensures
        payload_of(id) is Ok,
        scanned_id(payload_of(id)->Ok_0) == Ok::<i64, Seq<char>>(id),
{
    crate::text::lemma_nat_text_digits(id as nat);
    crate::text::lemma_zero_filled_digits(crate::text::nat_text(id as nat), 3);
    lemma_scanned_digits(pad3_text(id as int), id);
}

/// A battery is reached with or without zeros in front of its number: a label
/// that reads "007" and someone who types "7" name the same one.
pub proof fn zeros_in_front_reach_the_same_battery(zeros: Seq<char>, typed: Seq<char>)
    requires
        forall|i: int| 0 <= i < zeros.len() ==> zeros[i] == '0',
        typed.len() > 0,
        crate::text::all_digits(typed),
        crate::text::digits_value(typed) <= i64::MAX,
    ensures
        scanned_id(zeros + typed) == scanned_id(typed),
        scanned_id(typed) == Ok::<i64, Seq<char>>(crate::text::digits_value(typed) as i64),
{
    crate::text::lemma_zeros_in_front(zeros, typed);
    let id = crate::text::digits_value(typed);
    lemma_scanned_digits(typed, id as i64);
    lemma_scanned_digits(zeros + typed, id as i64);
}

/// Scanning digits that have a value finds the battery of that number.
proof fn lemma_scanned_digits(p: Seq<char>, id: i64)
    requires
        p.len() > 0,
        crate::text::all_digits(p),
        crate::text::digits_value(p) == id,
    ensures
        scanned_id(p) == Ok::<i64, Seq<char>>(id),
{
    assert forall|i: int| 0 <= i < p.len() implies is_digit(#[trigger] p[i]) by {}
    lemma_digits_stay(p);
    assert(is_digit(p[0]) && is_digit(p.last()));
    assert(trimmed(p) == p);
}

/// A text of nothing but digits keeps all of them.
pub proof fn lemma_digits_stay(s: Seq<char>)
    requires
        forall|i: int| 0 <= i < s.len() ==> is_digit(#[trigger] s[i]),
    ensures
        digits_in(s) == s,
    decreases s.len(),
{
    reveal(Seq::filter);
    if s.len() > 0 {
        assert forall|i: int| 0 <= i < s.drop_last().len() implies is_digit(
            #[trigger] s.drop_last()[i],
        ) by {
            assert(is_digit(s[i]));
        }
        lemma_digits_stay(s.drop_last());
        assert(is_digit(s[s.len() - 1]));
        assert(s.drop_last().push(s.last()) =~= s);
    } else {
        assert(digits_in(s) =~= s);
    }
}

// ── Raster canvas ───────────────────────────────────────────────────────

/// A monochrome canvas; where it is set there is ink.
#[derive(Debug)]
pub struct Raster {
    pub width: u32,
    pub height: u32,
    pub pixels: Vec<bool>,
}

impl Clone for Raster {
    fn clone(&self) -> (r: Self)
        ensures
            r.width == self.width,
            r.height == self.height,
            r.wf() == self.wf(),
            self.wf() ==> forall|x: int, y: int|
                self.inside(x, y) ==> #[trigger] r.ink(x, y) == self.ink(x, y),
    {
        let mut pixels: Vec<bool> = Vec::new();
        let mut i: usize = 0;
        while i < self.pixels.len()
            invariant
                i <= self.pixels@.len(),
                pixels@ == self.pixels@.take(i as int),
            decreases self.pixels@.len() - i,
        {
            pixels.push(self.pixels[i]);
            assert(pixels@ =~= self.pixels@.take(i + 1));
            i = i + 1;
        }
        assert(self.pixels@.take(self.pixels@.len() as int) =~= self.pixels@);
        Raster { width: self.width, height: self.height, pixels }
    }
}

proof fn lemma_cell(width: int, height: int, x: int, y: int)
    requires
        0 <= x < width,
        0 <= y < height,
    ensures
        0 <= y * width + x < width * height,
{
    assert(0 <= y * width + x < width * height) by (nonlinear_arith)
        requires
            0 <= x < width,
            0 <= y < height,
    ;
}

proof fn lemma_cells_differ(width: int, x: int, y: int, a: int, b: int)
    requires
        0 <= x < width,
        0 <= a < width,
        y * width + x == b * width + a,
    ensures
        x == a,
        y == b,
{
    assert(x == a && y == b) by (nonlinear_arith)
        requires
            0 <= x < width,
            0 <= a < width,
            y * width + x == b * width + a,
    ;
}

impl Raster {
    /// There is a pixel for each place on the canvas.
    pub open spec fn wf(&self) -> bool {
        self.pixels@.len() == self.width * self.height
    }

    /// Whether there is ink at a place, counted in rows from the top left.
    pub open spec fn ink(&self, x: int, y: int) -> bool {
        self.pixels@[y * self.width + x]
    }

    pub open spec fn inside(&self, x: int, y: int) -> bool {
        0 <= x < self.width && 0 <= y < self.height
    }

    /// A canvas without ink.
    pub fn blank(width: u32, height: u32) -> (r: Self)
        requires
            width * height <= u32::MAX,
        ensures
            r.wf(),
            r.width == width,
            r.height == height,
            forall|x: int, y: int| r.inside(x, y) ==> !#[trigger] r.ink(x, y),
    {
        let total: u32 = width * height;
        let mut pixels: Vec<bool> = Vec::new();
        let mut i: u32 = 0;
        while i < total
            invariant
                i <= total,
                pixels@.len() == i,
                forall|j: int| 0 <= j < i ==> !#[trigger] pixels@[j],
            decreases total - i,
        {
            pixels.push(false);
            i = i + 1;
        }
        let r = Raster { width, height, pixels };
        assert forall|x: int, y: int| r.inside(x, y) implies !#[trigger] r.ink(x, y) by {
            lemma_cell(width as int, height as int, x, y);
        }
        r
    }

    /// Puts ink at a place or takes it away; places off the canvas are left
    /// alone.
    pub fn set(&mut self, x: i64, y: i64, value: bool)
        requires
            old(self).wf(),
        ensures
            final(self).wf(),
            final(self).width == old(self).width,
            final(self).height == old(self).height,
            forall|a: int, b: int|
                old(self).inside(a, b) ==> #[trigger] final(self).ink(a, b) == (if a == x && b
                    == y {
                    value
                } else {
                    old(self).ink(a, b)
                }),
    {
        if x < 0 || y < 0 || x >= self.width as i64 || y >= self.height as i64 {
            return;
        }
        proof {
            lemma_cell(self.width as int, self.height as int, x as int, y as int);
        }
        let ghost before = *self;
        let total: usize = self.pixels.len();
        assert(y * self.width + x < total);
        assert(0 <= y * self.width) by (nonlinear_arith)
            requires
                y >= 0,
                self.width >= 0,
        ;
        let row: usize = y as usize * self.width as usize;
        let at: usize = row + x as usize;
        self.pixels.set(at, value);
        assert forall|a: int, b: int| before.inside(a, b) implies #[trigger] self.ink(a, b) == (
        if a == x && b == y {
            value
        } else {
            before.ink(a, b)
        }) by {
            lemma_cell(self.width as int, self.height as int, a, b);
            if b * self.width + a == at {
                lemma_cells_differ(self.width as int, a, b, x as int, y as int);
            }
        }
    }

    /// Whether there is ink at a place.
    pub fn get(&self, x: u32, y: u32) -> (r: bool)
        requires
            self.wf(),
            y * self.width + x < self.width * self.height,
        ensures
            r == self.ink(x as int, y as int),
    {
        let total: usize = self.pixels.len();
        assert(y * self.width + x < total);
        assert(0 <= y * self.width) by (nonlinear_arith);
        let row: usize = y as usize * self.width as usize;
        self.pixels[row + x as usize]
    }

    /// Puts the ink of another canvas on this one, its top left corner at the
    /// given place. What falls off the canvas is lost.
    pub fn paste(&mut self, other: &Raster, x0: i64, y0: i64)
        requires
            old(self).wf(),
            other.wf(),
            x0 + other.width <= i64::MAX,
            y0 + other.height <= i64::MAX,
        ensures
            final(self).wf(),
            final(self).width == old(self).width,
            final(self).height == old(self).height,
            forall|a: int, b: int|
                old(self).inside(a, b) ==> #[trigger] final(self).ink(a, b) == (old(self).ink(a, b)
                    || (other.inside(a - x0, b - y0) && other.ink(a - x0, b - y0))),
    {
        let ghost before = *self;
        let mut y: u32 = 0;
        while y < other.height
            invariant
                y <= other.height,
                other.wf(),
                self.wf(),
                before.wf(),
                x0 + other.width <= i64::MAX,
                y0 + other.height <= i64::MAX,
                self.width == before.width,
                self.height == before.height,
                forall|a: int, b: int|
                    before.inside(a, b) ==> #[trigger] self.ink(a, b) == (before.ink(a, b) || (
                    other.inside(a - x0, b - y0) && b - y0 < y && other.ink(a - x0, b - y0))),
            decreases other.height - y,
        {
            let mut x: u32 = 0;
            while x < other.width
                invariant
                    x <= other.width,
                    y < other.height,
                    other.wf(),
                    self.wf(),
                    before.wf(),
                    x0 + other.width <= i64::MAX,
                    y0 + other.height <= i64::MAX,
                    self.width == before.width,
                    self.height == before.height,
                    forall|a: int, b: int|
                        before.inside(a, b) ==> #[trigger] self.ink(a, b) == (before.ink(a, b) || (
                        other.inside(a - x0, b - y0) && (b - y0 < y || (b - y0 == y && a - x0 < x))
                            && other.ink(a - x0, b - y0))),
                decreases other.width - x,
            {
                proof {
                    lemma_cell(other.width as int, other.height as int, x as int, y as int);
                }
                if other.get(x, y) {
                    self.set(x0 + x as i64, y0 + y as i64, true);
                }
                x = x + 1;
            }
            y = y + 1;
        }
    }

    /// The shade of each place, row by row: black where there is ink, white
    /// elsewhere.
    pub open spec fn shades(&self) -> Seq<u8> {
        Seq::new(
            (self.width * self.height) as nat,
            |i: int|
                if self.ink(i % self.width as int, i / self.width as int) {
                    0u8
                } else {
                    255u8
                },
        )
    }

    pub fn grey_bytes(&self) -> (r: Vec<u8>)
        requires
            self.wf(),
        ensures
            r@ == self.shades(),
    {
        let mut out: Vec<u8> = Vec::new();
        let mut i: usize = 0;
        while i < self.pixels.len()
            invariant
                self.wf(),
                i <= self.pixels@.len(),
                out@.len() == i,
                forall|j: int|
                    0 <= j < i ==> #[trigger] out@[j] == (if self.pixels@[j] {
                        0u8
                    } else {
                        255u8
                    }),
            decreases self.pixels@.len() - i,
        {
            out.push(
                if self.pixels[i] {
                    0
                } else {
                    255
                },
            );
            i = i + 1;
        }
        proof {
            assert forall|j: int| 0 <= j < out@.len() implies #[trigger] out@[j]
                == self.shades()[j] by {
                assert(self.width > 0) by (nonlinear_arith)
                    requires
                        0 <= j < self.width * self.height,
                ;
                vstd::arithmetic::div_mod::lemma_fundamental_div_mod(j, self.width as int);
                assert(self.width * (j / self.width as int) == (j / self.width as int)
                    * self.width) by (nonlinear_arith);
            }
            assert(out@ =~= self.shades());
        }
        out
    }

    /// The canvas as a PNG file.
    pub fn to_png_bytes(&self) -> (r: Result<Vec<u8>, String>)
        requires
            self.wf(),
        ensures
            match r {
                Ok(bytes) => png_file(self.width, self.height, self.shades()) == Ok::<
                    Seq<u8>,
                    Seq<char>,
                >(bytes@),
                Err(e) => png_file(self.width, self.height, self.shades()) == Err::<
                    Seq<u8>,
                    Seq<char>,
                >(e@),
            },
    {
        let grey = self.grey_bytes();
        encode_png(self.width, self.height, &grey)
    }
}

/// A grey picture, row by row, as a PNG file, or why it cannot be one.
pub uninterp spec fn png_file(width: u32, height: u32, shades: Seq<u8>) -> Result<
    Seq<u8>,
    Seq<char>,
>;

/// `image::write_buffer_with_format` as PNG with one grey byte a pixel: the
/// same picture always gives the same file, or the same error. It wants one
/// byte for each pixel; how a PNG file is made up is left to the image crate.
#[verifier::external_body]
fn encode_png(width: u32, height: u32, grey: &Vec<u8>) -> (r: Result<Vec<u8>, String>)
    requires
        grey@.len() == width * height,
    ensures
        match r {
            Ok(bytes) => png_file(width, height, grey@) == Ok::<Seq<u8>, Seq<char>>(bytes@),
            Err(e) => png_file(width, height, grey@) == Err::<Seq<u8>, Seq<char>>(e@),
        },
{
    let mut out = std::io::Cursor::new(Vec::new());
    let kind = image::ExtendedColorType::L8;
    image::write_buffer_with_format(&mut out, grey, width, height, kind, image::ImageFormat::Png)
        .map_err(|e| e.to_string())?;
    Ok(out.into_inner())
}

// ── Data Matrix ─────────────────────────────────────────────────────────

pub const DOTS_PER_MODULE: u32 = 4;

pub const QUIET_MODULES: u32 = 1;

/// The Data Matrix of a payload: how many modules wide it is, and where the
/// dark ones are.
pub uninterp spec fn symbol_of(payload: Seq<char>) -> Result<
    (usize, Seq<(usize, usize)>),
    Seq<char>,
>;

/// Whether a text begins with the header of the Data Matrix formats 05 or 06.
pub open spec fn has_macro_header(s: Seq<char>) -> bool {
    &&& s.len() >= 7
    &&& s[0] == '['
    &&& s[1] == ')'
    &&& s[2] == '>'
    &&& s[3] == '\u{1e}'
    &&& s[4] == '0'
    &&& s[5] == '5' || s[5] == '6'
    &&& s[6] == '\u{1d}'
}

/// Whether a text has such a header and less than the two bytes of the formats'
/// trailer behind it: fewer than nine bytes in all.
pub open spec fn lacks_macro_trailer(s: Seq<char>) -> bool {
    has_macro_header(s) && (s.len() == 7 || (s.len() == 8 && (s[7] as u32) < 0x80))
}

/// `DataMatrix::encode` of the payload's bytes with the default symbol sizes,
/// and the width and the dark pixels of its bitmap; an error as its `Debug`
/// writes it. The same payload always gives the same symbol. The largest of
/// those sizes is 144 by 144, and a dark pixel lies inside its symbol; which
/// pixels are dark is left to the datamatrix crate. It cuts the trailer off any
/// payload with the header of format 05 or 06, and panics where there is not
/// room for one.
#[verifier::external_body]
fn symbol(payload: &str) -> (r: Result<(usize, Vec<(usize, usize)>), String>)
    requires
        !lacks_macro_trailer(payload@),
    ensures
        match r {
            Ok((width, dark)) => {
                &&& symbol_of(payload@) == Ok::<(usize, Seq<(usize, usize)>), Seq<char>>(
                    (width, dark@),
                )
                &&& width <= 144
                &&& forall|i: int|
                    0 <= i < dark@.len() ==> (#[trigger] dark@[i]).0 < width && dark@[i].1 < 144
            },
            Err(e) => symbol_of(payload@) == Err::<(usize, Seq<(usize, usize)>), Seq<char>>(e@),
        },
{
    let code = DataMatrix::encode(payload.as_bytes(), SymbolList::default());
    let code = code.map_err(|e| format!("{e:?}"))?;
    let bitmap = code.bitmap();
    Ok((bitmap.width(), bitmap.pixels().collect()))
}

/// Whether the module at `(px, py)`, with the quiet zone before it, covers a
/// place at this many dots a module.
pub open spec fn covers(module: (usize, usize), dots: int, x: int, y: int) -> bool {
    &&& (module.0 + QUIET_MODULES) * dots <= x < (module.0 + QUIET_MODULES + 1) * dots
    &&& (module.1 + QUIET_MODULES) * dots <= y < (module.1 + QUIET_MODULES + 1) * dots
}

/// A square picture of a symbol with its quiet zone: ink where a dark module
/// is, and nowhere else.
pub open spec fn shows_symbol(r: Raster, width: int, dark: Seq<(usize, usize)>, dots: int) -> bool {
    &&& r.wf()
    &&& r.width == (width + 2 * QUIET_MODULES) * dots
    &&& r.height == r.width
    &&& forall|x: int, y: int|
        r.inside(x, y) ==> #[trigger] r.ink(x, y) == (exists|i: int|
            0 <= i < dark.len() && covers(#[trigger] dark[i], dots, x, y))
}

/// Whether a symbol's picture has no more pixels than a canvas can.
pub open spec fn drawable(width: int, dots: int) -> bool {
    ((width + 2 * QUIET_MODULES) * dots) * ((width + 2 * QUIET_MODULES) * dots) <= u32::MAX
}

fn fill(r: &mut Raster, x0: i64, y0: i64, dots: u32)
    requires
        old(r).wf(),
        0 <= x0 < 0x1_0000_0000_0000,
        0 <= y0 < 0x1_0000_0000_0000,
    ensures
        final(r).wf(),
        final(r).width == old(r).width,
        final(r).height == old(r).height,
        forall|x: int, y: int|
            old(r).inside(x, y) ==> #[trigger] final(r).ink(x, y) == (old(r).ink(x, y) || (x0 <= x
                < x0 + dots && y0 <= y < y0 + dots)),
{
    let ghost before = *r;
    let mut dy: u32 = 0;
    while dy < dots
        invariant
            dy <= dots,
            0 <= x0 < 0x1_0000_0000_0000,
            0 <= y0 < 0x1_0000_0000_0000,
            r.wf(),
            r.width == before.width,
            r.height == before.height,
            forall|x: int, y: int|
                before.inside(x, y) ==> #[trigger] r.ink(x, y) == (before.ink(x, y) || (x0 <= x < x0
                    + dots && y0 <= y < y0 + dy)),
        decreases dots - dy,
    {
        let mut dx: u32 = 0;
        while dx < dots
            invariant
                dx <= dots,
                dy < dots,
                0 <= x0 < 0x1_0000_0000_0000,
                0 <= y0 < 0x1_0000_0000_0000,
                r.wf(),
                r.width == before.width,
                r.height == before.height,
                forall|x: int, y: int|
                    before.inside(x, y) ==> #[trigger] r.ink(x, y) == (before.ink(x, y) || (x0 <= x
                        < x0 + dots && y0 <= y < y0 + dy) || (x0 <= x < x0 + dx && y == y0 + dy)),
            decreases dots - dx,
        {
            r.set(x0 + dx as i64, y0 + dy as i64, true);
            dx = dx + 1;
        }
        dy = dy + 1;
    }
}

/// Draws a symbol with its quiet zone.
pub fn draw_symbol(width: usize, dark: &Vec<(usize, usize)>, dots: u32) -> (r: Raster)
    requires
        width <= 0xffff,
        drawable(width as int, dots as int),
        forall|i: int|
            0 <= i < dark@.len() ==> (#[trigger] dark@[i]).0 <= 0xffff && dark@[i].1 <= 0xffff,
    ensures
        shows_symbol(r, width as int, dark@, dots as int),
{
    let modules: u32 = width as u32 + 2 * QUIET_MODULES;
    assert(modules * dots <= u32::MAX) by (nonlinear_arith)
        requires
            (modules * dots) * (modules * dots) <= u32::MAX,
    ;
    let size: u32 = modules * dots;
    let mut r = Raster::blank(size, size);
    let mut i: usize = 0;
    while i < dark.len()
        invariant
            i <= dark@.len(),
            r.wf(),
            r.width == size,
            r.height == size,
            forall|i: int|
                0 <= i < dark@.len() ==> (#[trigger] dark@[i]).0 <= 0xffff && dark@[i].1 <= 0xffff,
            forall|x: int, y: int|
                r.inside(x, y) ==> #[trigger] r.ink(x, y) == (exists|j: int|
                    0 <= j < i && covers(#[trigger] dark@[j], dots as int, x, y)),
        decreases dark@.len() - i,
    {
        let (px, py) = dark[i];
        assert(dark@[i as int].0 <= 0xffff && dark@[i as int].1 <= 0xffff);
        assert((px + 1) * dots <= 0x1_0000 * 0xffff_ffff && (py + 1) * dots <= 0x1_0000
            * 0xffff_ffff && 0 <= (px + 1) * dots && 0 <= (py + 1) * dots) by (nonlinear_arith)
            requires
                0 <= px <= 0xffff,
                0 <= py <= 0xffff,
                0 <= dots <= 0xffff_ffff,
        ;
        assert((px + 2) * dots == (px + 1) * dots + dots && (py + 2) * dots == (py + 1) * dots
            + dots) by (nonlinear_arith);
        let x0: i64 = (px as i64 + 1) * dots as i64;
        let y0: i64 = (py as i64 + 1) * dots as i64;
        let ghost before = r;
        fill(&mut r, x0, y0, dots);
        assert forall|x: int, y: int| r.inside(x, y) implies #[trigger] r.ink(x, y) == (exists|
            j: int,
        |
            0 <= j < i + 1 && covers(#[trigger] dark@[j], dots as int, x, y)) by {
            assert(before.inside(x, y));
            assert(covers(dark@[i as int], dots as int, x, y) == (x0 <= x < x0 + dots && y0 <= y
                < y0 + dots));
            if before.ink(x, y) {
                let j = choose|j: int|
                    0 <= j < i && covers(#[trigger] dark@[j], dots as int, x, y);
                assert(covers(dark@[j], dots as int, x, y));
            }
        }
        i = i + 1;
    }
    r
}

/// What drawing the Data Matrix of a payload gives.
pub open spec fn draws_payload(
    r: Result<Raster, String>,
    payload: Seq<char>,
    dots: int,
) -> bool {
    match (r, symbol_of(payload)) {
        (Ok(raster), Ok((width, dark))) => shows_symbol(raster, width as int, dark, dots),
        (Err(e), Err(why)) => e@ == "Data Matrix encoding failed: "@ + why,
        _ => false,
    }
}

/// The Data Matrix of a payload with its quiet zone. A picture of any symbol
/// can be drawn at up to 448 dots a module, and that of a small one at more.
pub fn render_datamatrix(payload: &str, dots_per_module: u32) -> (r: Result<Raster, String>)
    requires
        !lacks_macro_trailer(payload@),
        dots_per_module <= 448 || (symbol_of(payload@) matches Ok((width, _)) ==> drawable(
            width as int,
            dots_per_module as int,
        )),
    ensures
        draws_payload(r, payload@, dots_per_module as int),
        r matches Ok(raster) ==> raster.width <= 146 * dots_per_module,
{
    match symbol(payload) {
        Ok((width, dark)) => {
            proof {
                let side = (width + 2) * dots_per_module;
                assert(side <= 146 * dots_per_module && 0 <= side) by (nonlinear_arith)
                    requires
                        side == (width + 2) * dots_per_module,
                        0 <= width <= 144,
                        0 <= dots_per_module,
                ;
                if dots_per_module <= 448 {
                    assert(side * side <= u32::MAX) by (nonlinear_arith)
                        requires
                            0 <= side <= 146 * 448,
                    ;
                }
            }
            Ok(draw_symbol(width, &dark, dots_per_module))
        },
        Err(e) => {
            let mut m = "Data Matrix encoding failed: ".to_string();
            m.append(e.as_str());
            Err(m)
        },
    }
}

// ── Label composition ───────────────────────────────────────────────────

/// The pins left of the print area and those in it, for a tape width in tenths
/// of a millimetre, of the 128 pins of the print head. The margin on the right
/// is the same as on the left.
pub open spec fn pins(tape_mm_x10: int) -> Option<(u32, u32)> {
    if tape_mm_x10 == 35 {
        Some((52, 24))
    } else if tape_mm_x10 == 60 {
        Some((48, 32))
    } else if tape_mm_x10 == 90 {
        Some((39, 50))
    } else if tape_mm_x10 == 120 {
        Some((29, 70))
    } else if tape_mm_x10 == 180 {
        Some((8, 112))
    } else if tape_mm_x10 == 240 {
        Some((0, 128))
    } else {
        None
    }
}

pub fn head_layout(tape_mm_x10: i64) -> (r: Option<(u32, u32)>)
    ensures
        r == pins(tape_mm_x10 as int),
{
    if tape_mm_x10 == 35 {
        Some((52, 24))
    } else if tape_mm_x10 == 60 {
        Some((48, 32))
    } else if tape_mm_x10 == 90 {
        Some((39, 50))
    } else if tape_mm_x10 == 120 {
        Some((29, 70))
    } else if tape_mm_x10 == 180 {
        Some((8, 112))
    } else if tape_mm_x10 == 240 {
        Some((0, 128))
    } else {
        None
    }
}

/// Both margins and the print area fill the head of any tape width there is.
pub proof fn margins_and_print_area_fill_the_head(tape_mm_x10: int)
    ensures
        pins(tape_mm_x10) matches Some((margin, area)) ==> 2 * margin + area == 128,
{
}

/// The pins that print on a tape.
pub fn print_pins(tape_mm_x10: i64) -> (r: Option<u32>)
    ensures
        r == (match pins(tape_mm_x10 as int) {
            Some((_, area)) => Some(area),
            None => None,
        }),
{
    match head_layout(tape_mm_x10) {
        Some((_, area)) => Some(area),
        None => None,
    }
}

/// How many dots a module is drawn with: four, or as many as make the symbol
/// fit on the tape, but at least two.
pub open spec fn dots_for(modules: int, height: int) -> int {
    if modules * 4 <= height {
        4
    } else if modules * 3 <= height {
        3
    } else {
        2
    }
}

/// A label before its text is drawn.
#[derive(Debug)]
pub struct LabelDraft {
    pub height: u32,
    pub symbol: Raster,
    pub id_text: String,
    /// The size of the text in pixels.
    pub size_px: i128,
}

/// The size of the text: this share of the height, at least eight pixels.
pub open spec fn text_size(height: int, scale_num: int, scale_den: int) -> int {
    let size = half_away(height * scale_num, scale_den);
    if size < 8 {
        8
    } else {
        size
    }
}

/// What a label is put together from, or why there is none.
pub open spec fn drafts_label(
    r: Result<LabelDraft, String>,
    battery_id: i64,
    tape_mm_x10: i64,
    scale_num: int,
    scale_den: int,
) -> bool {
    match (pins(tape_mm_x10 as int), payload_of(battery_id)) {
        (None, _) => r matches Err(e) && e@ == "Tape width "@ + tenths_text(tape_mm_x10 as int)
            + " mm is not one this printer supports."@,
        (Some(_), Err(why)) => r matches Err(e) && e@ == why,
        (Some((_, height)), Ok(payload)) => match symbol_of(payload) {
            Err(why) => r matches Err(e) && e@ == "Data Matrix encoding failed: "@ + why,
            Ok((width, dark)) => r matches Ok(draft) && {
                &&& draft.height == height
                &&& shows_symbol(
                    draft.symbol,
                    width as int,
                    dark,
                    dots_for(width + 2 * QUIET_MODULES, height as int),
                )
                &&& draft.symbol.width <= 584
                &&& draft.id_text@ == payload
                &&& draft.size_px == text_size(height as int, scale_num, scale_den)
            },
        },
    }
}

/// The parts of a label: the Data Matrix that fits the tape, and the id that
/// stands beside it at `scale_num / scale_den` of the tape's height.
pub fn label_draft(battery_id: i64, tape_mm_x10: i64, scale_num: i64, scale_den: i64) -> (r: Result<
    LabelDraft,
    String,
>)
    requires
        scale_den > 0,
    ensures
        drafts_label(r, battery_id, tape_mm_x10, scale_num as int, scale_den as int),
{
    let height = match print_pins(tape_mm_x10) {
        Some(area) => area,
        None => {
            let mut m = "Tape width ".to_string();
            push_tenths(&mut m, tape_mm_x10 as i128);
            m.append(" mm is not one this printer supports.");
            return Err(m);
        },
    };
    let payload = match encode_payload(battery_id) {
        Ok(p) => p,
        Err(e) => return Err(e),
    };
    proof {
        crate::text::lemma_nat_text_digits(battery_id as nat);
        crate::text::lemma_zero_filled_digits(crate::text::nat_text(battery_id as nat), 3);
        assert(is_digit(payload@[0]));
    }
    let mut symbol = match render_datamatrix(payload.as_str(), DOTS_PER_MODULE) {
        Ok(s) => s,
        Err(e) => return Err(e),
    };
    if symbol.height > height {
        symbol = match render_datamatrix(payload.as_str(), 3) {
            Ok(s) => s,
            Err(e) => return Err(e),
        };
        if symbol.height > height {
            symbol = match render_datamatrix(payload.as_str(), 2) {
                Ok(s) => s,
                Err(e) => return Err(e),
            };
        }
    }
    let size = round_half_away(height as i128 * scale_num as i128, scale_den as i128);
    let size_px = if size < 8 {
        8
    } else {
        size
    };
    Ok(LabelDraft { height, symbol, id_text: payload, size_px })
}

pub const GAP_PX: i64 = 8;

pub const PAD_PX: i64 = 6;

/// The box around the ink of some text, in whole pixels.
#[derive(Debug, Clone, Copy)]
pub struct InkBounds {
    pub min_x: i64,
    pub min_y: i64,
    pub max_x: i64,
    pub max_y: i64,
}

/// A label with its symbol, and where the text is to be drawn from: across in
/// pixels, down in half pixels.
#[derive(Debug)]
pub struct Composition {
    pub raster: Raster,
    pub draw_x: i64,
    pub draw_y_halves: i64,
}

pub open spec fn label_width(symbol_width: int, bounds: InkBounds) -> int {
    let width = PAD_PX + symbol_width + GAP_PX + (bounds.max_x - bounds.min_x) + PAD_PX;
    if width < 1 {
        1
    } else {
        width
    }
}

/// A label that is wide enough for the text beside the symbol, with the symbol
/// on it.
pub open spec fn is_composed(r: Composition, draft: LabelDraft, bounds: InkBounds) -> bool {
    let top = if draft.height >= draft.symbol.height {
        (draft.height - draft.symbol.height) / 2
    } else {
        -((draft.symbol.height - draft.height) / 2)
    };
    &&& r.raster.wf()
    &&& r.raster.height == draft.height
    &&& r.raster.width == label_width(draft.symbol.width as int, bounds)
    &&& forall|x: int, y: int|
        r.raster.inside(x, y) ==> #[trigger] r.raster.ink(x, y) == (draft.symbol.inside(
            x - PAD_PX,
            y - top,
        ) && draft.symbol.ink(x - PAD_PX, y - top))
    &&& r.draw_x == PAD_PX + draft.symbol.width + GAP_PX - bounds.min_x
    &&& r.draw_y_halves == draft.height - (bounds.max_y - bounds.min_y) - 2 * bounds.min_y
}

/// Puts the symbol on a label that is wide enough for the text beside it. The
/// text is centred by the box around its ink, not by the font's own metrics,
/// which leave room that digits do not use.
pub fn compose(draft: &LabelDraft, bounds: InkBounds) -> (r: Composition)
    requires
        draft.symbol.wf(),
        -0x8000_0000 <= bounds.min_x <= 0x8000_0000,
        -0x8000_0000 <= bounds.max_x <= 0x8000_0000,
        -0x8000_0000 <= bounds.min_y <= 0x8000_0000,
        -0x8000_0000 <= bounds.max_y <= 0x8000_0000,
        label_width(draft.symbol.width as int, bounds) * draft.height <= u32::MAX,
        label_width(draft.symbol.width as int, bounds) <= u32::MAX,
    ensures
        r.raster.wf(),
        r.raster.height == draft.height,
        r.raster.width == label_width(draft.symbol.width as int, bounds),
        ({
            let top = if draft.height >= draft.symbol.height {
                (draft.height - draft.symbol.height) / 2
            } else {
                -((draft.symbol.height - draft.height) / 2)
            };
            forall|x: int, y: int|
                r.raster.inside(x, y) ==> #[trigger] r.raster.ink(x, y) == (draft.symbol.inside(
                    x - PAD_PX,
                    y - top,
                ) && draft.symbol.ink(x - PAD_PX, y - top))
        }),
        r.draw_x == PAD_PX + draft.symbol.width + GAP_PX - bounds.min_x,
        r.draw_y_halves == draft.height - (bounds.max_y - bounds.min_y) - 2 * bounds.min_y,
        is_composed(r, *draft, bounds),
{
    let beside: i64 = PAD_PX + draft.symbol.width as i64 + GAP_PX;
    let width: i64 = beside + (bounds.max_x - bounds.min_x) + PAD_PX;
    let width: i64 = if width < 1 {
        1
    } else {
        width
    };
    let mut raster = Raster::blank(width as u32, draft.height);
    let top: i64 = if draft.height >= draft.symbol.height {
        ((draft.height - draft.symbol.height) / 2) as i64
    } else {
        0 - ((draft.symbol.height - draft.height) / 2) as i64
    };
    raster.paste(&draft.symbol, PAD_PX, top);
    Composition {
        raster,
        draw_x: beside - bounds.min_x,
        draw_y_halves: draft.height as i64 - (bounds.max_y - bounds.min_y) - 2 * bounds.min_y,
    }
}

/// Puts ink on a label at each of some places; those off the label are lost.
pub fn ink_places(raster: &mut Raster, places: &Vec<(i64, i64)>)
    requires
        old(raster).wf(),
    ensures
        final(raster).wf(),
        final(raster).width == old(raster).width,
        final(raster).height == old(raster).height,
        forall|x: int, y: int|
            old(raster).inside(x, y) ==> #[trigger] final(raster).ink(x, y) == (old(raster).ink(
                x,
                y,
            ) || exists|i: int|
                0 <= i < places@.len() && (#[trigger] places@[i]).0 == x && places@[i].1 == y),
{
    let ghost before = *raster;
    let mut i: usize = 0;
    while i < places.len()
        invariant
            i <= places@.len(),
            raster.wf(),
            raster.width == before.width,
            raster.height == before.height,
            forall|x: int, y: int|
                before.inside(x, y) ==> #[trigger] raster.ink(x, y) == (before.ink(x, y) || exists|
                    j: int,
                |
                    0 <= j < i && (#[trigger] places@[j]).0 == x && places@[j].1 == y),
        decreases places@.len() - i,
    {
        let (x, y) = places[i];
        let ghost mid = *raster;
        raster.set(x, y, true);
        assert forall|a: int, b: int| before.inside(a, b) implies #[trigger] raster.ink(a, b) == (
        before.ink(a, b) || exists|j: int|
            0 <= j < i + 1 && (#[trigger] places@[j]).0 == a && places@[j].1 == b) by {
            assert(mid.inside(a, b));
            assert(places@[i as int].0 == x && places@[i as int].1 == y);
            if mid.ink(a, b) && !before.ink(a, b) {
                let j = choose|j: int|
                    0 <= j < i && (#[trigger] places@[j]).0 == a && places@[j].1 == b;
                assert(places@[j].0 == a);
            }
        }
        i = i + 1;
    }
}

} // verus!
