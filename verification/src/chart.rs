//! Where the capacity and resistance trends of one cell are drawn.

use vstd::arithmetic::div_mod::{lemma_div_is_ordered, lemma_fundamental_div_mod};
use vstd::prelude::*;
use vstd::string::*;
use crate::dates::{as_date, day_of, day_string, day_text};
use crate::health::{or_zero, value_or_zero, ByDate};
use crate::num::{
    clamp_i64, clamped, half_away, half_even, round_half_away, round_half_even,
};
use crate::order::{sort, sorted, sorted_keeps_all};
use crate::rows::{Battery, Measurement};
use crate::select::{kept, kept_members, select, Test};
use crate::text::{int_text, join, joined, push_int, push_tenths, tenths_text, views};

verus! {

/// Every length in a chart is a whole number of tenths of a unit.
pub const WIDTH: i128 = 6000;

pub const HEIGHT: i128 = 1500;

pub const PAD_LEFT: i128 = 80;

pub const PAD_RIGHT: i128 = 80;

pub const PAD_TOP: i128 = 120;

pub const PAD_BOTTOM: i128 = 220;

/// What a reading can measure.
#[derive(Clone, Copy, PartialEq, Eq, Structural)]
pub enum Quantity {
    Capacity,
    Resistance,
}

/// What reading `m` says of `q`, zero where it says nothing.
pub open spec fn reading(q: Quantity, m: Measurement) -> i64 {
    match q {
        Quantity::Capacity => or_zero(m.capacity_mah),
        Quantity::Resistance => or_zero(m.ir_mohm),
    }
}

fn reading_of(q: Quantity, m: &Measurement) -> (r: i64)
    ensures
        r == reading(q, *m),
{
    match q {
        Quantity::Capacity => value_or_zero(m.capacity_mah),
        Quantity::Resistance => value_or_zero(m.ir_mohm),
    }
}

/// A reading of either quantity.
pub struct Drawable;

impl Test<Measurement> for Drawable {
    open spec fn holds(&self, m: Measurement) -> bool {
        reading(Quantity::Capacity, m) != 0 || reading(Quantity::Resistance, m) != 0
    }

    fn check(&self, m: &Measurement) -> (r: bool) {
        reading_of(Quantity::Capacity, m) != 0 || reading_of(Quantity::Resistance, m) != 0
    }
}

/// The readings that are drawn, oldest first.
pub open spec fn drawn_readings(ms: Seq<Measurement>) -> Seq<Measurement> {
    sorted(ByDate, kept(Drawable, ms))
}

/// The values of `q` that were read.
pub open spec fn values(q: Quantity, points: Seq<Measurement>) -> Seq<i64>
    decreases points.len(),
{
    if points.len() == 0 {
        Seq::empty()
    } else {
        let before = values(q, points.drop_last());
        if reading(q, points.last()) != 0 {
            before.push(reading(q, points.last()))
        } else {
            before
        }
    }
}

fn values_of(q: Quantity, points: &Vec<Measurement>) -> (r: Vec<i64>)
    ensures
        r@ == values(q, points@),
{
    let mut out: Vec<i64> = Vec::new();
    let mut i: usize = 0;
    assert(out@ =~= values(q, points@.take(0)));
    while i < points.len()
        invariant
            i <= points@.len(),
            out@ == values(q, points@.take(i as int)),
        decreases points@.len() - i,
    {
        assert(points@.take(i + 1).drop_last() =~= points@.take(i as int));
        let v = reading_of(q, &points[i]);
        if v != 0 {
            out.push(v);
        }
        i = i + 1;
    }
    assert(points@.take(points@.len() as int) =~= points@);
    out
}

/// The smallest of some numbers.
pub open spec fn least(s: Seq<i64>) -> i64
    decreases s.len(),
{
    if s.len() <= 1 {
        s[0]
    } else if s.last() < least(s.drop_last()) {
        s.last()
    } else {
        least(s.drop_last())
    }
}

/// The largest of some numbers.
pub open spec fn greatest(s: Seq<i64>) -> i64
    decreases s.len(),
{
    if s.len() <= 1 {
        s[0]
    } else if s.last() > greatest(s.drop_last()) {
        s.last()
    } else {
        greatest(s.drop_last())
    }
}

/// The smallest of some numbers is one of them, and none is smaller; likewise
/// the largest.
pub proof fn extremes_bound(s: Seq<i64>)
    requires
        s.len() > 0,
    ensures
        s.contains(least(s)),
        s.contains(greatest(s)),
        forall|i: int| 0 <= i < s.len() ==> least(s) <= #[trigger] s[i] <= greatest(s),
    decreases s.len(),
{
    if s.len() == 1 {
        assert(s[0] == least(s));
    } else {
        let d = s.drop_last();
        extremes_bound(d);
        let a = choose|i: int| 0 <= i < d.len() && d[i] == least(d);
        let b = choose|i: int| 0 <= i < d.len() && d[i] == greatest(d);
        assert(s[a] == d[a] && s[b] == d[b]);
        assert(s[s.len() - 1] == s.last());
        assert forall|i: int| 0 <= i < s.len() implies least(s) <= #[trigger] s[i] <= greatest(
            s,
        ) by {
            if i < d.len() {
                assert(s[i] == d[i]);
            }
        }
    }
}

fn extremes(v: &Vec<i64>) -> (r: (i64, i64))
    requires
        v@.len() > 0,
    ensures
        r.0 == least(v@),
        r.1 == greatest(v@),
{
    let mut low: i64 = v[0];
    let mut high: i64 = v[0];
    let mut i: usize = 1;
    assert(v@.take(1)[0] == v@[0]);
    while i < v.len()
        invariant
            1 <= i <= v@.len(),
            low == least(v@.take(i as int)),
            high == greatest(v@.take(i as int)),
        decreases v@.len() - i,
    {
        assert(v@.take(i + 1).drop_last() =~= v@.take(i as int));
        if v[i] < low {
            low = v[i];
        }
        if v[i] > high {
            high = v[i];
        }
        i = i + 1;
    }
    assert(v@.take(v@.len() as int) =~= v@);
    (low, high)
}

// ── Scales ──────────────────────────────────────────────────────────────

/// A vertical scale, in twenty-fifths of what is measured. It is of use only
/// where something was measured.
pub struct Scale {
    pub measured: bool,
    pub low: i128,
    pub high: i128,
}

/// The ends of a scale in twenty-fifths: two twenty-fifths (8 %) of the span
/// beyond the values at either end.
pub open spec fn padded(low: int, high: int) -> (int, int) {
    (25 * low - 2 * (high - low), 25 * high + 2 * (high - low))
}

/// The capacity scale spans the measured values and the nominal one, or 50
/// either side of them where they are all the same.
pub open spec fn capacity_scale(found: Seq<i64>, nominal: i64) -> (bool, int, int) {
    if found.len() == 0 {
        (false, 25 * nominal, 25 * nominal)
    } else {
        let all = if nominal != 0 {
            found.push(nominal)
        } else {
            found
        };
        let low = least(all) as int;
        let high = greatest(all) as int;
        let (a, b) = if low == high {
            padded(low - 50, high + 50)
        } else {
            padded(low, high)
        };
        (true, a, b)
    }
}

pub open spec fn not_below_zero(n: int) -> int {
    if n < 0 {
        0
    } else {
        n
    }
}

/// The resistance scale spans the measured values, or 10 either side of them
/// where they are all the same, and does not start below zero.
pub open spec fn resistance_scale(found: Seq<i64>) -> (bool, int, int) {
    if found.len() == 0 {
        (false, 0, 0)
    } else {
        let low = least(found) as int;
        let high = greatest(found) as int;
        let (a, b) = if low == high {
            padded(not_below_zero(low - 10), high + 10)
        } else {
            padded(low, high)
        };
        (true, not_below_zero(a), b)
    }
}

impl Scale {
    pub open spec fn parts(&self) -> (bool, int, int) {
        (self.measured, self.low as int, self.high as int)
    }

    pub open spec fn bounded(&self) -> bool {
        &&& -0x0080_0000_0000_0000_0000 < self.low < 0x0080_0000_0000_0000_0000
        &&& -0x0080_0000_0000_0000_0000 < self.high < 0x0080_0000_0000_0000_0000
    }
}

fn capacity_scale_of(found: &Vec<i64>, nominal: i64) -> (r: Scale)
    ensures
        r.parts() == capacity_scale(found@, nominal),
        r.bounded(),
{
    if found.len() == 0 {
        return Scale { measured: false, low: 25 * nominal as i128, high: 25 * nominal as i128 };
    }
    let (a, b) = extremes(found);
    let mut low: i128 = a as i128;
    let mut high: i128 = b as i128;
    if nominal != 0 {
        assert(found@.push(nominal).drop_last() =~= found@);
        if (nominal as i128) < low {
            low = nominal as i128;
        }
        if (nominal as i128) > high {
            high = nominal as i128;
        }
    }
    if low == high {
        low = low - 50;
        high = high + 50;
    }
    Scale {
        measured: true,
        low: 25 * low - 2 * (high - low),
        high: 25 * high + 2 * (high - low),
    }
}

fn resistance_scale_of(found: &Vec<i64>) -> (r: Scale)
    ensures
        r.parts() == resistance_scale(found@),
        r.bounded(),
{
    if found.len() == 0 {
        return Scale { measured: false, low: 0, high: 0 };
    }
    let (a, b) = extremes(found);
    let mut low: i128 = a as i128;
    let mut high: i128 = b as i128;
    if low == high {
        low = if low - 10 < 0 {
            0
        } else {
            low - 10
        };
        high = high + 10;
    }
    let padded_low: i128 = 25 * low - 2 * (high - low);
    Scale {
        measured: true,
        low: if padded_low < 0 {
            0
        } else {
            padded_low
        },
        high: 25 * high + 2 * (high - low),
    }
}

/// `num / den` to the nearest whole number, whatever the sign of `den`.
pub open spec fn nearest(num: int, den: int) -> int {
    if den > 0 {
        half_away(num, den)
    } else {
        half_away(-num, -den)
    }
}

/// How far down a value is drawn, in tenths: the low end of the scale at the
/// bottom, the high end at the top; in the middle where there is no scale.
pub open spec fn y_at(scale: (bool, int, int), value: int) -> int {
    let (measured, low, high) = scale;
    if !measured || high == low {
        HEIGHT / 2
    } else {
        nearest(
            (HEIGHT - PAD_BOTTOM) * (high - low) - (HEIGHT - PAD_TOP - PAD_BOTTOM) * (25 * value
                - low),
            high - low,
        )
    }
}

fn y_of(scale: &Scale, value: i64) -> (r: i128)
    requires
        scale.bounded(),
    ensures
        r == y_at(scale.parts(), value as int),
        -0x2000_0000_0000_0000_0000_0000_0000_0000 < r
            < 0x2000_0000_0000_0000_0000_0000_0000_0000,
{
    if !scale.measured || scale.high == scale.low {
        return 750;
    }
    let span: i128 = scale.high - scale.low;
    let num: i128 = 1280 * span - 1160 * (25 * value as i128 - scale.low);
    if span > 0 {
        round_half_away(num, span)
    } else {
        round_half_away(0 - num, 0 - span)
    }
}

// ── The horizontal axis ─────────────────────────────────────────────────

/// The days that the readings were taken on, where they can be told.
pub open spec fn days(points: Seq<Measurement>) -> Seq<i64>
    decreases points.len(),
{
    if points.len() == 0 {
        Seq::empty()
    } else {
        match day_of(points.last().measured_at@) {
            Some(d) => days(points.drop_last()).push(d as i64),
            None => days(points.drop_last()),
        }
    }
}

fn days_of(points: &Vec<Measurement>) -> (r: Vec<i64>)
    ensures
        r@ == days(points@),
{
    let mut out: Vec<i64> = Vec::new();
    let mut i: usize = 0;
    assert(out@ =~= days(points@.take(0)));
    while i < points.len()
        invariant
            i <= points@.len(),
            out@ == days(points@.take(i as int)),
        decreases points@.len() - i,
    {
        assert(points@.take(i + 1).drop_last() =~= points@.take(i as int));
        if let Some(d) = as_date(points[i].measured_at.as_str()) {
            out.push(d as i64);
        }
        i = i + 1;
    }
    assert(points@.take(points@.len() as int) =~= points@);
    out
}

proof fn lemma_days_range(points: Seq<Measurement>)
    ensures
        forall|i: int|
            0 <= i < days(points).len() ==> i32::MIN <= #[trigger] days(points)[i] <= i32::MAX,
    decreases points.len(),
{
    if points.len() > 0 {
        let before = days(points.drop_last());
        lemma_days_range(points.drop_last());
        assert forall|i: int| 0 <= i < days(points).len() implies i32::MIN <= #[trigger] days(
            points,
        )[i] <= i32::MAX by {
            if i < before.len() {
                assert(days(points)[i] == before[i]);
            }
        }
    }
}

pub proof fn lemma_days_has(points: Seq<Measurement>, k: int)
    requires
        0 <= k < points.len(),
        day_of(points[k].measured_at@) is Some,
    ensures
        days(points).contains((day_of(points[k].measured_at@)->0) as i64),
    decreases points.len(),
{
    let d = (day_of(points[k].measured_at@)->0) as i64;
    if k == points.len() - 1 {
        assert(days(points).last() == d);
    } else {
        assert(points.drop_last()[k] == points[k]);
        lemma_days_has(points.drop_last(), k);
        let i = days(points.drop_last()).index_of(d);
        assert(days(points)[i] == d);
    }
}

/// How far across one of `count` readings is drawn, in tenths: by its day
/// between the first and the last of all days, else evenly by its place in the
/// row.
pub open spec fn across(day: Option<i32>, all: Seq<i64>, count: int, index: int) -> int {
    let inside = WIDTH - PAD_LEFT - PAD_RIGHT;
    match day {
        Some(d) if least(all) != greatest(all) => half_away(
            PAD_LEFT * (greatest(all) - least(all)) + inside * (d - least(all)),
            greatest(all) - least(all),
        ),
        _ => if count == 1 {
            PAD_LEFT + inside / 2
        } else {
            half_away(PAD_LEFT * (count - 1) + inside * index, count - 1)
        },
    }
}

/// How far across a reading is drawn.
pub open spec fn x_at(points: Seq<Measurement>, index: int) -> int {
    across(day_of(points[index].measured_at@), days(points), points.len() as int, index)
}

fn x_of(points: &Vec<Measurement>, all: &Vec<i64>, index: usize) -> (r: i128)
    requires
        index < points@.len(),
        all@ == days(points@),
    ensures
        r == x_at(points@, index as int),
        -0x2000_0000_0000_0000_0000_0000_0000_0000 < r
            < 0x2000_0000_0000_0000_0000_0000_0000_0000,
{
    let day = as_date(points[index].measured_at.as_str());
    proof {
        if day is Some {
            lemma_days_has(points@, index as int);
        }
    }
    place_across(day, all, points.len(), index)
}

/// How far across one of some readings is drawn, given its day and those of all
/// of them.
pub fn place_across(day: Option<i32>, all: &Vec<i64>, count: usize, index: usize) -> (r: i128)
    requires
        index < count,
        day matches Some(d) ==> all@.contains(d as i64),
    ensures
        r == across(day, all@, count as int, index as int),
        -0x2000_0000_0000_0000_0000_0000_0000_0000 < r
            < 0x2000_0000_0000_0000_0000_0000_0000_0000,
{
    if let Some(d) = day {
        proof {
            let at = all@.index_of(d as i64);
            assert(all@[at] == d);
            extremes_bound(all@);
        }
        let (low, high) = extremes(all);
        if low != high {
            let span: i128 = high as i128 - low as i128;
            return round_half_away(80 * span + 5840 * (d as i128 - low as i128), span);
        }
    }
    if count == 1 {
        3000
    } else {
        let gaps: i128 = count as i128 - 1;
        round_half_away(80 * gaps + 5840 * index as i128, gaps)
    }
}

// ── The chart ───────────────────────────────────────────────────────────

/// One reading as it is drawn; lengths in tenths.
#[derive(Debug)]
pub struct ChartPoint {
    pub x: i128,
    pub comparable: bool,
    pub measured_at: String,
    pub cap_y: Option<i128>,
    pub cap_label: Option<String>,
    pub ir_y: Option<i128>,
    pub ir_label: Option<String>,
}

#[verifier::ext_equal]
pub struct ChartPointView {
    pub x: int,
    pub comparable: bool,
    pub measured_at: Seq<char>,
    pub cap_y: Option<int>,
    pub cap_label: Option<Seq<char>>,
    pub ir_y: Option<int>,
    pub ir_label: Option<Seq<char>>,
}

pub open spec fn opt_int(o: Option<i128>) -> Option<int> {
    match o {
        Some(v) => Some(v as int),
        None => None,
    }
}

impl View for ChartPoint {
    type V = ChartPointView;

    open spec fn view(&self) -> ChartPointView {
        ChartPointView {
            x: self.x as int,
            comparable: self.comparable,
            measured_at: self.measured_at@,
            cap_y: opt_int(self.cap_y),
            cap_label: crate::rows::opt_text(self.cap_label),
            ir_y: opt_int(self.ir_y),
            ir_label: crate::rows::opt_text(self.ir_label),
        }
    }
}

pub open spec fn point_views(s: Seq<ChartPoint>) -> Seq<ChartPointView> {
    s.map_values(|p: ChartPoint| p@)
}

#[derive(Debug)]
pub struct Chart {
    pub width: i128,
    pub height: i128,
    pub series: Vec<ChartPoint>,
    pub others: Vec<ChartPoint>,
    pub cap_line: String,
    pub ir_line: String,
    pub nominal_y: Option<i128>,
    pub nominal: i64,
    pub cap_high: i64,
    pub cap_low: i64,
    pub ir_high: i64,
    pub ir_low: i64,
    pub first: String,
    pub last: String,
}

#[verifier::ext_equal]
pub struct ChartView {
    pub width: int,
    pub height: int,
    pub series: Seq<ChartPointView>,
    pub others: Seq<ChartPointView>,
    pub cap_line: Seq<char>,
    pub ir_line: Seq<char>,
    pub nominal_y: Option<int>,
    pub nominal: i64,
    pub cap_high: i64,
    pub cap_low: i64,
    pub ir_high: i64,
    pub ir_low: i64,
    pub first: Seq<char>,
    pub last: Seq<char>,
}

impl View for Chart {
    type V = ChartView;

    open spec fn view(&self) -> ChartView {
        ChartView {
            width: self.width as int,
            height: self.height as int,
            series: point_views(self.series@),
            others: point_views(self.others@),
            cap_line: self.cap_line@,
            ir_line: self.ir_line@,
            nominal_y: opt_int(self.nominal_y),
            nominal: self.nominal,
            cap_high: self.cap_high,
            cap_low: self.cap_low,
            ir_high: self.ir_high,
            ir_low: self.ir_low,
            first: self.first@,
            last: self.last@,
        }
    }
}

/// Reading `index` as it is drawn.
pub open spec fn point_at(
    points: Seq<Measurement>,
    index: int,
    cap: (bool, int, int),
    ir: (bool, int, int),
) -> ChartPointView {
    let m = points[index];
    let c = reading(Quantity::Capacity, m);
    let r = reading(Quantity::Resistance, m);
    ChartPointView {
        x: x_at(points, index),
        comparable: true,
        measured_at: m.measured_at@,
        cap_y: if c != 0 {
            Some(y_at(cap, c as int))
        } else {
            None
        },
        cap_label: if c != 0 {
            Some(int_text(c as int) + " mAh"@)
        } else {
            None
        },
        ir_y: if r != 0 {
            Some(y_at(ir, r as int))
        } else {
            None
        },
        ir_label: if r != 0 {
            Some(int_text(r as int) + " m\u{03A9}"@)
        } else {
            None
        },
    }
}

pub open spec fn height_of(q: Quantity, p: ChartPointView) -> Option<int> {
    match q {
        Quantity::Capacity => p.cap_y,
        Quantity::Resistance => p.ir_y,
    }
}

/// The corners of the line through the readings of `q`, each written `x,y`.
pub open spec fn corners(q: Quantity, drawn: Seq<ChartPointView>) -> Seq<Seq<char>>
    decreases drawn.len(),
{
    if drawn.len() == 0 {
        Seq::empty()
    } else {
        let before = corners(q, drawn.drop_last());
        match height_of(q, drawn.last()) {
            Some(y) => before.push(tenths_text(drawn.last().x) + ","@ + tenths_text(y)),
            None => before,
        }
    }
}

pub open spec fn line(q: Quantity, drawn: Seq<ChartPointView>) -> Seq<char> {
    joined(corners(q, drawn), " "@)
}

/// An end of a scale, to the nearest whole number; zero where nothing was
/// measured.
pub open spec fn end_label(measured: bool, end: int) -> i64 {
    if measured {
        clamped(half_even(end, 25))
    } else {
        0
    }
}

/// The chart of a cell with this nominal capacity, if there is anything to
/// draw.
pub open spec fn chart_of(nominal_mah: Option<i64>, ms: Seq<Measurement>) -> Option<ChartView> {
    let points = drawn_readings(ms);
    let nominal = or_zero(nominal_mah);
    let cap = capacity_scale(values(Quantity::Capacity, points), nominal);
    let ir = resistance_scale(values(Quantity::Resistance, points));
    let drawn = Seq::new(points.len(), |i: int| point_at(points, i, cap, ir));
    let all = days(points);
    if points.len() == 0 {
        None
    } else {
        Some(
            ChartView {
                width: WIDTH as int,
                height: HEIGHT as int,
                series: drawn,
                others: Seq::empty(),
                cap_line: line(Quantity::Capacity, drawn),
                ir_line: line(Quantity::Resistance, drawn),
                nominal_y: if nominal != 0 && cap.0 && cap.1 <= 25 * nominal <= cap.2 {
                    Some(y_at(cap, nominal as int))
                } else {
                    None
                },
                nominal,
                cap_high: end_label(cap.0, cap.2),
                cap_low: end_label(cap.0, cap.1),
                ir_high: end_label(ir.0, ir.2),
                ir_low: end_label(ir.0, ir.1),
                first: if all.len() > 0 {
                    day_text(least(all) as i32)
                } else {
                    Seq::empty()
                },
                last: if all.len() > 0 {
                    day_text(greatest(all) as i32)
                } else {
                    Seq::empty()
                },
            },
        )
    }
}

fn end_of(measured: bool, end: i128) -> (r: i64)
    requires
        -0x0080_0000_0000_0000_0000 < end < 0x0080_0000_0000_0000_0000,
    ensures
        r == end_label(measured, end as int),
{
    if measured {
        clamp_i64(round_half_even(end, 25))
    } else {
        0
    }
}

fn point_of(points: &Vec<Measurement>, all: &Vec<i64>, index: usize, cap: &Scale, ir: &Scale) -> (r:
    ChartPoint)
    requires
        index < points@.len(),
        all@ == days(points@),
        cap.bounded(),
        ir.bounded(),
    ensures
        r@ == point_at(points@, index as int, cap.parts(), ir.parts()),
        drawable(r),
{
    let m = &points[index];
    let x = x_of(points, all, index);
    let c = reading_of(Quantity::Capacity, m);
    let v = reading_of(Quantity::Resistance, m);
    let mut cap_y: Option<i128> = None;
    let mut cap_label: Option<String> = None;
    if c != 0 {
        cap_y = Some(y_of(cap, c));
        let mut label = String::new();
        push_int(&mut label, c as i128);
        label.append(" mAh");
        assert(label@ =~= int_text(c as int) + " mAh"@);
        cap_label = Some(label);
    }
    let mut ir_y: Option<i128> = None;
    let mut ir_label: Option<String> = None;
    if v != 0 {
        ir_y = Some(y_of(ir, v));
        let mut label = String::new();
        push_int(&mut label, v as i128);
        label.append(" m\u{03A9}");
        assert(label@ =~= int_text(v as int) + " m\u{03A9}"@);
        ir_label = Some(label);
    }
    ChartPoint {
        x,
        comparable: true,
        measured_at: m.measured_at.clone(),
        cap_y,
        cap_label,
        ir_y,
        ir_label,
    }
}

/// The lengths of a point are ones that can be written out.
spec fn drawable(p: ChartPoint) -> bool {
    let limit: int = 0x2000_0000_0000_0000_0000_0000_0000_0000;
    &&& -limit < p.x < limit
    &&& p.cap_y matches Some(y) ==> -limit < y < limit
    &&& p.ir_y matches Some(y) ==> -limit < y < limit
}

fn line_of(q: Quantity, drawn: &Vec<ChartPoint>) -> (r: String)
    requires
        forall|i: int| 0 <= i < drawn@.len() ==> drawable(#[trigger] drawn@[i]),
    ensures
        r@ == line(q, point_views(drawn@)),
{
    let mut parts: Vec<String> = Vec::new();
    let mut i: usize = 0;
    assert(views(parts@) =~= corners(q, point_views(drawn@).take(0)));
    while i < drawn.len()
        invariant
            i <= drawn@.len(),
            views(parts@) == corners(q, point_views(drawn@).take(i as int)),
            forall|i: int| 0 <= i < drawn@.len() ==> drawable(#[trigger] drawn@[i]),
        decreases drawn@.len() - i,
    {
        let p = &drawn[i];
        assert(drawable(drawn@[i as int]));
        let ghost so_far = point_views(drawn@).take(i + 1);
        assert(so_far.drop_last() =~= point_views(drawn@).take(i as int));
        assert(so_far.last() == p@);
        let y = match q {
            Quantity::Capacity => p.cap_y,
            Quantity::Resistance => p.ir_y,
        };
        if let Some(y) = y {
            let mut part = String::new();
            push_tenths(&mut part, p.x);
            part.append(",");
            push_tenths(&mut part, y);
            assert(part@ =~= tenths_text(p.x as int) + ","@ + tenths_text(y as int));
            proof {
                crate::text::lemma_views_push(parts@, part);
            }
            parts.push(part);
        }
        i = i + 1;
    }
    assert(point_views(drawn@).take(drawn@.len() as int) =~= point_views(drawn@));
    join(&parts, " ")
}

/// Where to draw the capacity and resistance trends of a cell, on one date
/// axis; nothing where there is nothing to draw.
pub fn chart(battery: &Battery, measurements: &Vec<Measurement>) -> (r: Option<Chart>)
    ensures
        match r {
            Some(c) => chart_of(battery.nominal_mah, measurements@) == Some(c@),
            None => chart_of(battery.nominal_mah, measurements@) is None,
        },
{
    let points = sort(&ByDate, select(&Drawable, measurements));
    if points.len() == 0 {
        return None;
    }
    let nominal = value_or_zero(battery.nominal_mah);
    let cap = capacity_scale_of(&values_of(Quantity::Capacity, &points), nominal);
    let ir = resistance_scale_of(&values_of(Quantity::Resistance, &points));
    let all = days_of(&points);
    let mut drawn: Vec<ChartPoint> = Vec::new();
    let ghost wanted = Seq::new(
        points@.len(),
        |i: int| point_at(points@, i, cap.parts(), ir.parts()),
    );
    let mut i: usize = 0;
    assert(point_views(drawn@) =~= wanted.take(0));
    while i < points.len()
        invariant
            i <= points@.len(),
            all@ == days(points@),
            cap.bounded(),
            ir.bounded(),
            wanted == Seq::new(
                points@.len(),
                |i: int| point_at(points@, i, cap.parts(), ir.parts()),
            ),
            point_views(drawn@) == wanted.take(i as int),
            forall|i: int| 0 <= i < drawn@.len() ==> drawable(#[trigger] drawn@[i]),
        decreases points@.len() - i,
    {
        let p = point_of(&points, &all, i, &cap, &ir);
        let ghost before = drawn@;
        drawn.push(p);
        assert(point_views(drawn@) =~= point_views(before).push(p@));
        assert(wanted.take(i + 1) =~= wanted.take(i as int).push(wanted[i as int]));
        i = i + 1;
    }
    assert(wanted.take(points@.len() as int) =~= wanted);
    let cap_line = line_of(Quantity::Capacity, &drawn);
    let ir_line = line_of(Quantity::Resistance, &drawn);
    let nominal_y = if nominal != 0 && cap.measured && cap.low <= 25 * nominal as i128 && 25
        * nominal as i128 <= cap.high {
        Some(y_of(&cap, nominal))
    } else {
        None
    };
    let mut first = String::new();
    let mut last = String::new();
    if all.len() > 0 {
        proof {
            lemma_days_range(points@);
            extremes_bound(all@);
            let a = all@.index_of(least(all@));
            let b = all@.index_of(greatest(all@));
            assert(all@[a] == least(all@) && all@[b] == greatest(all@));
        }
        let (low, high) = extremes(&all);
        first = day_string(low as i32);
        last = day_string(high as i32);
    }
    let others: Vec<ChartPoint> = Vec::new();
    assert(point_views(others@) =~= Seq::empty());
    Some(
        Chart {
            width: WIDTH,
            height: HEIGHT,
            series: drawn,
            others,
            cap_line,
            ir_line,
            nominal_y,
            nominal,
            cap_high: end_of(cap.measured, cap.high),
            cap_low: end_of(cap.measured, cap.low),
            ir_high: end_of(ir.measured, ir.high),
            ir_low: end_of(ir.measured, ir.low),
            first,
            last,
        },
    )
}

// ── What holds of every chart ───────────────────────────────────────────

/// A share of a length starts at one end of it and ends at the other.
proof fn lemma_share(start: int, length: int, span: int, part: int)
    requires
        0 <= length,
        0 <= part <= span,
    ensures
        start * span <= start * span + length * part <= (start + length) * span,
{
    assert(start * span <= start * span + length * part <= (start + length) * span)
        by (nonlinear_arith)
        requires
            0 <= length,
            0 <= part <= span,
    ;
}

proof fn lemma_nearest_between(num: int, den: int, low: int, high: int)
    requires
        den > 0,
        0 <= low,
        low * den <= num <= high * den,
    ensures
        low <= half_away(num, den) <= high,
{
    assert(num >= 0) by (nonlinear_arith)
        requires
            0 <= low,
            den > 0,
            low * den <= num,
    ;
    let q = (2 * num + den) / (2 * den);
    lemma_fundamental_div_mod(2 * num + den, 2 * den);
    let r = (2 * num + den) % (2 * den);
    assert(low <= q <= high) by (nonlinear_arith)
        requires
            den > 0,
            low * den <= num <= high * den,
            2 * num + den == 2 * den * q + r,
            0 <= r < 2 * den,
    ;
}

pub proof fn lemma_values_has(q: Quantity, points: Seq<Measurement>, k: int)
    requires
        0 <= k < points.len(),
        reading(q, points[k]) != 0,
    ensures
        values(q, points).contains(reading(q, points[k])),
    decreases points.len(),
{
    let v = reading(q, points[k]);
    if k == points.len() - 1 {
        assert(values(q, points).last() == v);
    } else {
        assert(points.drop_last()[k] == points[k]);
        lemma_values_has(q, points.drop_last(), k);
        let i = values(q, points.drop_last()).index_of(v);
        assert(values(q, points)[i] == v);
    }
}

pub proof fn lemma_values_from(q: Quantity, points: Seq<Measurement>, v: i64)
    requires
        values(q, points).contains(v),
    ensures
        exists|k: int| 0 <= k < points.len() && #[trigger] reading(q, points[k]) == v,
    decreases points.len(),
{
    if points.len() > 0 {
        let d = points.drop_last();
        if reading(q, points.last()) == v {
            assert(reading(q, points[points.len() - 1]) == v);
        } else {
            let i = values(q, points).index_of(v);
            assert(values(q, d)[i] == v);
            lemma_values_from(q, d, v);
            let k = choose|k: int| 0 <= k < d.len() && #[trigger] reading(q, d[k]) == v;
            assert(reading(q, points[k]) == v);
        }
    }
}

/// The larger of two values on a scale is drawn no lower.
pub proof fn a_larger_value_is_drawn_no_lower(scale: (bool, int, int), a: int, b: int)
    requires
        scale.1 <= scale.2,
        scale.1 <= 25 * a,
        a <= b,
        25 * b <= scale.2,
    ensures
        y_at(scale, b) <= y_at(scale, a),
{
    let (measured, low, high) = scale;
    if measured && high != low {
        let span = high - low;
        let inside = HEIGHT - PAD_TOP - PAD_BOTTOM;
        let n = (HEIGHT - PAD_BOTTOM) * span - inside * (25 * a - low);
        let m = (HEIGHT - PAD_BOTTOM) * span - inside * (25 * b - low);
        assert(0 <= m <= n) by (nonlinear_arith)
            requires
                n == (HEIGHT - PAD_BOTTOM) * span - inside * (25 * a - low),
                m == (HEIGHT - PAD_BOTTOM) * span - inside * (25 * b - low),
                0 <= inside <= HEIGHT - PAD_BOTTOM,
                25 * a <= 25 * b,
                0 <= 25 * b - low <= span,
        ;
        lemma_div_is_ordered(2 * m + span, 2 * n + span, 2 * span);
    }
}

proof fn lemma_y_inside(scale: (bool, int, int), value: int)
    requires
        scale.1 <= 25 * value <= scale.2,
    ensures
        PAD_TOP <= y_at(scale, value) <= HEIGHT - PAD_BOTTOM,
{
    let (measured, low, high) = scale;
    if measured && high != low {
        let span = high - low;
        let inside = HEIGHT - PAD_TOP - PAD_BOTTOM;
        let num = (HEIGHT - PAD_BOTTOM) * span - inside * (25 * value - low);
        assert(num == PAD_TOP * span + inside * (high - 25 * value)) by (nonlinear_arith)
            requires
                num == (HEIGHT - PAD_BOTTOM) * span - inside * (25 * value - low),
                inside == HEIGHT - PAD_TOP - PAD_BOTTOM,
                span == high - low,
        ;
        lemma_share(PAD_TOP as int, inside, span, high - 25 * value);
        lemma_nearest_between(num, span, PAD_TOP as int, HEIGHT - PAD_BOTTOM);
    }
}

proof fn lemma_x_inside(points: Seq<Measurement>, index: int)
    requires
        0 <= index < points.len(),
    ensures
        PAD_LEFT <= x_at(points, index) <= WIDTH - PAD_RIGHT,
{
    let all = days(points);
    let inside = WIDTH - PAD_LEFT - PAD_RIGHT;
    let day = day_of(points[index].measured_at@);
    if day is Some && least(all) != greatest(all) {
        lemma_days_has(points, index);
        extremes_bound(all);
        let d = (day->0) as i64;
        let at = all.index_of(d);
        assert(all[at] == d);
        let span = greatest(all) - least(all);
        lemma_share(PAD_LEFT as int, inside, span, d - least(all));
        lemma_nearest_between(
            PAD_LEFT * span + inside * (d - least(all)),
            span,
            PAD_LEFT as int,
            WIDTH - PAD_RIGHT,
        );
    } else if points.len() > 1 {
        lemma_share(PAD_LEFT as int, inside, points.len() - 1, index);
        lemma_nearest_between(
            PAD_LEFT * (points.len() - 1) + inside * index,
            points.len() - 1,
            PAD_LEFT as int,
            WIDTH - PAD_RIGHT,
        );
    }
}

/// No reading is drawn beside the frame, and no capacity above or below it; the
/// line at the nominal capacity lies inside it too.
pub proof fn the_trends_stay_inside_the_frame(
    nominal_mah: Option<i64>,
    ms: Seq<Measurement>,
    index: int,
)
    ensures
        chart_of(nominal_mah, ms) matches Some(c) ==> (0 <= index < c.series.len() ==> {
            let p = c.series[index];
            &&& PAD_LEFT <= p.x <= WIDTH - PAD_RIGHT
            &&& p.cap_y matches Some(y) ==> PAD_TOP <= y <= HEIGHT - PAD_BOTTOM
        }) && (c.nominal_y matches Some(y) ==> PAD_TOP <= y <= HEIGHT - PAD_BOTTOM),
{
    let points = drawn_readings(ms);
    let nominal = or_zero(nominal_mah);
    let caps = values(Quantity::Capacity, points);
    let cap = capacity_scale(caps, nominal);
    if cap.0 && cap.1 <= 25 * nominal <= cap.2 {
        lemma_y_inside(cap, nominal as int);
    }
    if 0 <= index < points.len() {
        lemma_x_inside(points, index);
        let c = reading(Quantity::Capacity, points[index]);
        if c != 0 {
            lemma_values_has(Quantity::Capacity, points, index);
            let all = if nominal != 0 {
                caps.push(nominal)
            } else {
                caps
            };
            let k = caps.index_of(c);
            assert(all[k] == c);
            extremes_bound(all);
            lemma_y_inside(cap, c as int);
        }
    }
}

/// As long as no resistance is negative, none is drawn above or below the frame.
pub proof fn resistances_stay_inside_the_frame(
    nominal_mah: Option<i64>,
    ms: Seq<Measurement>,
    index: int,
)
    requires
        forall|i: int|
            0 <= i < ms.len() ==> #[trigger] reading(Quantity::Resistance, ms[i]) >= 0,
    ensures
        chart_of(nominal_mah, ms) matches Some(c) ==> (0 <= index < c.series.len() ==> (
        c.series[index].ir_y matches Some(y) ==> PAD_TOP <= y <= HEIGHT - PAD_BOTTOM)),
{
    let points = drawn_readings(ms);
    let irs = values(Quantity::Resistance, points);
    let ir = resistance_scale(irs);
    if 0 <= index < points.len() {
        let r = reading(Quantity::Resistance, points[index]);
        if r != 0 {
            lemma_values_has(Quantity::Resistance, points, index);
            let k = irs.index_of(r);
            assert(irs[k] == r);
            extremes_bound(irs);
            lemma_none_negative(ms, points, least(irs));
            lemma_y_inside(ir, r as int);
        }
    }
}

proof fn lemma_none_negative(ms: Seq<Measurement>, points: Seq<Measurement>, v: i64)
    requires
        points == drawn_readings(ms),
        forall|i: int|
            0 <= i < ms.len() ==> #[trigger] reading(Quantity::Resistance, ms[i]) >= 0,
        values(Quantity::Resistance, points).contains(v),
    ensures
        v >= 0,
{
    lemma_values_from(Quantity::Resistance, points, v);
    let k = choose|k: int|
        0 <= k < points.len() && #[trigger] reading(Quantity::Resistance, points[k]) == v;
    let m = points[k];
    sorted_keeps_all(ByDate, kept(Drawable, ms));
    assert(points.to_multiset().count(m) > 0) by {
        broadcast use vstd::seq_lib::group_to_multiset_ensures;

        assert(points.contains(m));
    }
    assert(kept(Drawable, ms).contains(m)) by {
        broadcast use vstd::seq_lib::group_to_multiset_ensures;

    }
    kept_members(Drawable, ms);
    assert(ms.contains(m));
    let i = ms.index_of(m);
    assert(reading(Quantity::Resistance, ms[i]) >= 0);
}

} // verus!
