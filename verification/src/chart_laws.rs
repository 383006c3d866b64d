//! What a chart draws, told of the readings.

use vstd::prelude::*;
use crate::chart::{
    capacity_scale, chart_of, corners, days, drawn_readings, end_label, extremes_bound, greatest,
    least, lemma_days_has, lemma_values_from, lemma_values_has, nearest, reading,
    resistance_scale, values, x_at, y_at, ChartPointView, Drawable, Quantity,
};
use crate::dates::{day_of, day_text};
use crate::health::ByDate;
use crate::health_laws::{by_date, lemma_by_date};
use crate::num::half_away;
use crate::order::{sorted_in_order, sorted_keeps_all, sorted_same_members};
use crate::rows::Measurement;
use crate::select::{kept, kept_members, lemma_kept_count};
use crate::text::{int_text, joined, tenths_text};

verus! {

pub open spec fn says(v: Option<i64>) -> bool {
    v is Some && v != Some(0i64)
}

/// The chart shows every reading of a capacity or a resistance once, oldest
/// first, with what it says written beside it. There is none where there is no
/// such reading.
pub proof fn a_chart_shows_the_readings(nominal_mah: Option<i64>, ms: Seq<Measurement>)
    ensures
        ({
            let points = drawn_readings(ms);
            &&& by_date(points)
            &&& forall|m: Measurement|
                #![trigger points.to_multiset().count(m)]
                points.to_multiset().count(m) == (if says(m.capacity_mah) || says(m.ir_mohm) {
                    ms.to_multiset().count(m)
                } else {
                    0
                })
            &&& chart_of(nominal_mah, ms) is Some <==> points.len() > 0
            &&& chart_of(nominal_mah, ms) matches Some(c) ==> {
                &&& c.width == 6000
                &&& c.height == 1500
                &&& c.series.len() == points.len()
                &&& c.nominal == (match nominal_mah {
                    Some(n) => n,
                    None => 0,
                })
                &&& forall|i: int|
                    0 <= i < points.len() ==> {
                        let m = points[i];
                        let p = #[trigger] c.series[i];
                        &&& p.measured_at == m.measured_at@
                        &&& p.cap_y is Some <==> says(m.capacity_mah)
                        &&& p.ir_y is Some <==> says(m.ir_mohm)
                        &&& p.cap_label == (if says(m.capacity_mah) {
                            Some(int_text(m.capacity_mah->0 as int) + " mAh"@)
                        } else {
                            None
                        })
                        &&& p.ir_label == (if says(m.ir_mohm) {
                            Some(int_text(m.ir_mohm->0 as int) + " m\u{03A9}"@)
                        } else {
                            None
                        })
                    }
                &&& c.cap_line == joined(
                    c.series.filter(|p: ChartPointView| p.cap_y is Some).map_values(
                        |p: ChartPointView| tenths_text(p.x) + ","@ + tenths_text(p.cap_y->0),
                    ),
                    " "@,
                )
                &&& c.ir_line == joined(
                    c.series.filter(|p: ChartPointView| p.ir_y is Some).map_values(
                        |p: ChartPointView| tenths_text(p.x) + ","@ + tenths_text(p.ir_y->0),
                    ),
                    " "@,
                )
            }
        }),
{
    let k = kept(Drawable, ms);
    let points = drawn_readings(ms);
    sorted_keeps_all(ByDate, k);
    sorted_in_order(ByDate, k);
    lemma_by_date(points);
    assert forall|m: Measurement|
        #![trigger points.to_multiset().count(m)]
        points.to_multiset().count(m) == (if says(m.capacity_mah) || says(m.ir_mohm) {
            ms.to_multiset().count(m)
        } else {
            0
        }) by {
        lemma_kept_count(Drawable, ms, m);
    }
    if let Some(c) = chart_of(nominal_mah, ms) {
        lemma_cap_corners(c.series);
        lemma_ir_corners(c.series);
    }
}

proof fn lemma_cap_corners(s: Seq<ChartPointView>)
    ensures
        corners(Quantity::Capacity, s) == s.filter(
            |p: ChartPointView| p.cap_y is Some,
        ).map_values(|p: ChartPointView| tenths_text(p.x) + ","@ + tenths_text(p.cap_y->0)),
    decreases s.len(),
{
    reveal(Seq::filter);
    let g = |p: ChartPointView| tenths_text(p.x) + ","@ + tenths_text(p.cap_y->0);
    let f = |p: ChartPointView| p.cap_y is Some;
    if s.len() > 0 {
        lemma_cap_corners(s.drop_last());
        if f(s.last()) {
            assert(s.filter(f).map_values(g) =~= s.drop_last().filter(f).map_values(g).push(
                g(s.last()),
            ));
        }
    } else {
        assert(s.filter(f).map_values(g) =~= Seq::empty());
    }
}

proof fn lemma_ir_corners(s: Seq<ChartPointView>)
    ensures
        corners(Quantity::Resistance, s) == s.filter(
            |p: ChartPointView| p.ir_y is Some,
        ).map_values(|p: ChartPointView| tenths_text(p.x) + ","@ + tenths_text(p.ir_y->0)),
    decreases s.len(),
{
    reveal(Seq::filter);
    let g = |p: ChartPointView| tenths_text(p.x) + ","@ + tenths_text(p.ir_y->0);
    let f = |p: ChartPointView| p.ir_y is Some;
    if s.len() > 0 {
        lemma_ir_corners(s.drop_last());
        if f(s.last()) {
            assert(s.filter(f).map_values(g) =~= s.drop_last().filter(f).map_values(g).push(
                g(s.last()),
            ));
        }
    } else {
        assert(s.filter(f).map_values(g) =~= Seq::empty());
    }
}

// ── Heights ─────────────────────────────────────────────────────────────

/// Whether `y` tenths is, to the nearest one, where a value stands between two
/// ends in twenty-fifths: the low end 128 units down and the high end 12.
pub open spec fn to_scale(y: int, value: int, low: int, high: int) -> bool {
    -(high - low) <= 2 * ((y - 1280) * (high - low) + 1160 * (25 * value - low)) <= high - low
}

/// Whether a whole number is the nearest one to an end in twenty-fifths.
pub open spec fn is_end(label: i64, end: int) -> bool {
    i64::MIN < label < i64::MAX ==> -25 <= 2 * (25 * label - end) <= 25
}

/// A capacity of the readings, or the nominal one.
pub open spec fn is_capacity(v: i64, nominal_mah: Option<i64>, ms: Seq<Measurement>) -> bool {
    v != 0 && (nominal_mah == Some(v) || exists|m: Measurement| #[trigger]
        ms.contains(m) && m.capacity_mah == Some(v))
}

pub open spec fn is_resistance(v: i64, ms: Seq<Measurement>) -> bool {
    v != 0 && exists|m: Measurement| #[trigger] ms.contains(m) && m.ir_mohm == Some(v)
}

/// Capacities are drawn to scale, the larger the higher: from 8 % of the span
/// below the smallest to 8 % above the largest, the nominal one among them.
/// Where all are the same the span reaches 50 either way.
pub proof fn capacities_are_drawn_to_scale(
    nominal_mah: Option<i64>,
    ms: Seq<Measurement>,
    i: int,
    low: i64,
    high: i64,
)
    requires
        0 <= i < drawn_readings(ms).len(),
        says(drawn_readings(ms)[i].capacity_mah),
        is_capacity(low, nominal_mah, ms),
        is_capacity(high, nominal_mah, ms),
        forall|v: i64| #[trigger] is_capacity(v, nominal_mah, ms) ==> low <= v <= high,
    ensures
        chart_of(nominal_mah, ms) matches Some(c) && {
            let wide = if low == high {
                50int
            } else {
                0
            };
            let a = low - wide;
            let b = high + wide;
            let bottom = 25 * a - 2 * (b - a);
            let top = 25 * b + 2 * (b - a);
            &&& to_scale(
                c.series[i].cap_y->0,
                drawn_readings(ms)[i].capacity_mah->0 as int,
                bottom,
                top,
            )
            &&& is_end(c.cap_low, bottom)
            &&& is_end(c.cap_high, top)
            &&& says(nominal_mah) ==> c.nominal_y is Some && to_scale(
                c.nominal_y->0,
                nominal_mah->0 as int,
                bottom,
                top,
            )
        },
{
    let points = drawn_readings(ms);
    let found = values(Quantity::Capacity, points);
    let nominal = crate::health::or_zero(nominal_mah);
    lemma_values_has(Quantity::Capacity, points, i);
    lemma_capacity_ends(nominal_mah, ms, low, high);
    let scale = capacity_scale(found, nominal);
    lemma_to_scale(scale, points[i].capacity_mah->0 as int);
    lemma_end(scale.0, scale.1);
    lemma_end(scale.0, scale.2);
    if says(nominal_mah) {
        assert(is_capacity(nominal, nominal_mah, ms));
        lemma_to_scale(scale, nominal as int);
    }
}

proof fn lemma_capacity_ends(
    nominal_mah: Option<i64>,
    ms: Seq<Measurement>,
    low: i64,
    high: i64,
)
    requires
        is_capacity(low, nominal_mah, ms),
        is_capacity(high, nominal_mah, ms),
        forall|v: i64| #[trigger] is_capacity(v, nominal_mah, ms) ==> low <= v <= high,
    ensures
        ({
            let found = values(Quantity::Capacity, drawn_readings(ms));
            let nominal = crate::health::or_zero(nominal_mah);
            let all = if nominal != 0 {
                found.push(nominal)
            } else {
                found
            };
            least(all) == low && greatest(all) == high
        }),
{
    let points = drawn_readings(ms);
    let q = Quantity::Capacity;
    let found = values(q, points);
    let nominal = crate::health::or_zero(nominal_mah);
    let all = if nominal != 0 {
        found.push(nominal)
    } else {
        found
    };
    lemma_members(ms);
    assert forall|v: i64| #[trigger] all.contains(v) implies is_capacity(v, nominal_mah, ms) by {
        let k = all.index_of(v);
        if k < found.len() {
            assert(found[k] == v);
            lemma_values_from(q, points, v);
            let j = choose|j: int| 0 <= j < points.len() && #[trigger] reading(q, points[j]) == v;
            assert(points.contains(points[j]));
            lemma_nonzero(q, points, v);
            assert(ms.contains(points[j]));
        }
    }
    assert forall|v: i64| #[trigger] is_capacity(v, nominal_mah, ms) implies all.contains(v) by {
        if nominal_mah == Some(v) {
            assert(all[all.len() - 1] == v);
        } else {
            let m = choose|m: Measurement| #[trigger]
                ms.contains(m) && m.capacity_mah == Some(v);
            assert(points.contains(m));
            let j = points.index_of(m);
            lemma_values_has(q, points, j);
            let k = found.index_of(v);
            assert(all[k] == v);
        }
    }
    assert(all.contains(low) && all.contains(high));
    extremes_bound(all);
    assert(all.contains(least(all)) && all.contains(greatest(all)));
    let x = all.index_of(low);
    let y = all.index_of(high);
    assert(all[x] == low && all[y] == high);
    assert(is_capacity(least(all), nominal_mah, ms));
    assert(is_capacity(greatest(all), nominal_mah, ms));
    assert(least(all) == low && greatest(all) == high);
}

/// Resistances are drawn to their own scale, which does not start below zero;
/// where all are the same it reaches 10 either way.
pub proof fn resistances_are_drawn_to_scale(
    nominal_mah: Option<i64>,
    ms: Seq<Measurement>,
    i: int,
    low: i64,
    high: i64,
)
    requires
        0 <= i < drawn_readings(ms).len(),
        says(drawn_readings(ms)[i].ir_mohm),
        is_resistance(low, ms),
        is_resistance(high, ms),
        forall|v: i64| #[trigger] is_resistance(v, ms) ==> low <= v <= high,
        low >= 0,
    ensures
        chart_of(nominal_mah, ms) matches Some(c) && {
            let a = if low == high && low >= 10 {
                low - 10
            } else if low == high {
                0
            } else {
                low as int
            };
            let b = if low == high {
                high + 10
            } else {
                high as int
            };
            let under = 25 * a - 2 * (b - a);
            let bottom = if under < 0 {
                0
            } else {
                under
            };
            let top = 25 * b + 2 * (b - a);
            &&& to_scale(
                c.series[i].ir_y->0,
                drawn_readings(ms)[i].ir_mohm->0 as int,
                bottom,
                top,
            )
            &&& is_end(c.ir_low, bottom)
            &&& is_end(c.ir_high, top)
        },
{
    let points = drawn_readings(ms);
    let q = Quantity::Resistance;
    let all = values(q, points);
    lemma_values_has(q, points, i);
    extremes_bound(all);
    lemma_members(ms);
    assert forall|v: i64| #[trigger] all.contains(v) implies is_resistance(v, ms) by {
        lemma_values_from(q, points, v);
        let j = choose|j: int| 0 <= j < points.len() && #[trigger] reading(q, points[j]) == v;
        assert(points.contains(points[j]));
        lemma_nonzero(q, points, v);
        assert(ms.contains(points[j]));
    }
    assert forall|v: i64| #[trigger] is_resistance(v, ms) implies all.contains(v) by {
        let m = choose|m: Measurement| #[trigger] ms.contains(m) && m.ir_mohm == Some(v);
        assert(points.contains(m));
        let j = points.index_of(m);
        lemma_values_has(q, points, j);
    }
    let x = all.index_of(low);
    let y = all.index_of(high);
    assert(all[x] == low && all[y] == high);
    assert(is_resistance(least(all), ms));
    assert(is_resistance(greatest(all), ms));
    assert(least(all) == low && greatest(all) == high);
    let scale = resistance_scale(all);
    lemma_to_scale(scale, points[i].ir_mohm->0 as int);
    lemma_end(scale.0, scale.1);
    lemma_end(scale.0, scale.2);
}

proof fn lemma_nonzero(q: Quantity, points: Seq<Measurement>, v: i64)
    requires
        values(q, points).contains(v),
    ensures
        v != 0,
    decreases points.len(),
{
    if points.len() > 0 {
        let d = values(q, points.drop_last());
        let i = values(q, points).index_of(v);
        if i < d.len() {
            assert(d[i] == v);
            lemma_nonzero(q, points.drop_last(), v);
        }
    }
}

proof fn lemma_members(ms: Seq<Measurement>)
    ensures
        forall|m: Measurement| #[trigger]
            drawn_readings(ms).contains(m) <==> ms.contains(m) && (says(m.capacity_mah) || says(
                m.ir_mohm,
            )),
{
    sorted_same_members(ByDate, kept(Drawable, ms));
    kept_members(Drawable, ms);
    assert forall|m: Measurement| #[trigger]
        drawn_readings(ms).contains(m) <==> ms.contains(m) && (says(m.capacity_mah) || says(
            m.ir_mohm,
        )) by {
        assert(kept(Drawable, ms).contains(m) <==> ms.contains(m) && (says(m.capacity_mah) || says(
            m.ir_mohm,
        )));
    }
}

proof fn lemma_half_away(num: int, den: int)
    requires
        den > 0,
    ensures
        -den <= 2 * (den * half_away(num, den) - num) <= den,
{
    let a = if num >= 0 {
        2 * num + den
    } else {
        -2 * num + den
    };
    let q = a / (2 * den);
    vstd::arithmetic::div_mod::lemma_fundamental_div_mod(a, 2 * den);
    assert(2 * den * q == 2 * (den * q)) by (nonlinear_arith);
    assert(den * (-q) == -(den * q)) by (nonlinear_arith);
}

proof fn lemma_to_scale(scale: (bool, int, int), value: int)
    requires
        scale.0,
        scale.1 < scale.2,
    ensures
        to_scale(y_at(scale, value), value, scale.1, scale.2),
{
    let span = scale.2 - scale.1;
    let num = 1280 * span - 1160 * (25 * value - scale.1);
    lemma_half_away(num, span);
    let y = y_at(scale, value);
    assert(y == half_away(num, span));
    assert((y - 1280) * span == span * y - 1280 * span) by (nonlinear_arith);
}

proof fn lemma_end(measured: bool, end: int)
    requires
        measured,
    ensures
        is_end(end_label(measured, end), end),
{
    let e = crate::num::half_even(end, 25);
    assert(-25 <= 2 * (25 * e - end) <= 25);
}

// ── Across ──────────────────────────────────────────────────────────────

/// Readings are drawn by their day between the first and the last day, which
/// stand at the ends of the frame and are told below it.
pub proof fn readings_are_drawn_by_day(
    nominal_mah: Option<i64>,
    ms: Seq<Measurement>,
    i: int,
    j: int,
    k: int,
)
    requires
        ({
            let points = drawn_readings(ms);
            &&& 0 <= i < points.len()
            &&& 0 <= j < points.len()
            &&& 0 <= k < points.len()
            &&& day_of(points[i].measured_at@) is Some
            &&& day_of(points[j].measured_at@) is Some
            &&& day_of(points[k].measured_at@) is Some
            &&& forall|n: int|
                0 <= n < points.len() ==> (day_of((#[trigger] points[n]).measured_at@) matches Some(
                    d,
                ) ==> day_of(points[j].measured_at@)->0 <= d <= day_of(points[k].measured_at@)->0)
        }),
    ensures
        chart_of(nominal_mah, ms) matches Some(c) && {
            let points = drawn_readings(ms);
            let d = day_of(points[i].measured_at@)->0;
            let first = day_of(points[j].measured_at@)->0;
            let last = day_of(points[k].measured_at@)->0;
            let x = c.series[i].x;
            &&& first < last ==> -(last - first) <= 2 * ((x - 80) * (last - first) - 5840 * (d
                - first)) <= last - first
            &&& c.first == day_text(first)
            &&& c.last == day_text(last)
        },
{
    let points = drawn_readings(ms);
    let all = days(points);
    let d = day_of(points[i].measured_at@)->0;
    let first = day_of(points[j].measured_at@)->0;
    let last = day_of(points[k].measured_at@)->0;
    lemma_days_has(points, i);
    lemma_days_has(points, j);
    lemma_days_has(points, k);
    extremes_bound(all);
    let a = all.index_of(first as i64);
    let b = all.index_of(last as i64);
    assert(all[a] == first && all[b] == last);
    lemma_days_from(points, least(all));
    lemma_days_from(points, greatest(all));
    assert(least(all) == first && greatest(all) == last);
    if first < last {
        let span = last - first;
        let num = 80 * span + 5840 * (d - first);
        lemma_half_away(num, span);
        let x = x_at(points, i);
        assert(x == half_away(num, span));
        assert((x - 80) * span == span * x - 80 * span) by (nonlinear_arith);
    }
}

proof fn lemma_days_from(points: Seq<Measurement>, v: i64)
    requires
        days(points).contains(v),
    ensures
        exists|n: int|
            0 <= n < points.len() && (day_of((#[trigger] points[n]).measured_at@) matches Some(d)
                && d == v),
    decreases points.len(),
{
    if points.len() > 0 {
        let t = points.drop_last();
        let i = days(points).index_of(v);
        if i < days(t).len() {
            assert(days(t)[i] == v);
            lemma_days_from(t, v);
            let n = choose|n: int|
                0 <= n < t.len() && (day_of((#[trigger] t[n]).measured_at@) matches Some(d) && d
                    == v);
            assert(points[n] == t[n]);
        } else {
            assert(points[points.len() - 1] == points.last());
        }
    }
}

/// Where no day can be told, readings are drawn evenly, in their order; a single
/// one in the middle.
pub proof fn readings_without_days_are_drawn_evenly(
    nominal_mah: Option<i64>,
    ms: Seq<Measurement>,
    i: int,
)
    requires
        0 <= i < drawn_readings(ms).len(),
        day_of(drawn_readings(ms)[i].measured_at@) is None,
    ensures
        chart_of(nominal_mah, ms) matches Some(c) && {
            let n = drawn_readings(ms).len();
            let x = c.series[i].x;
            &&& n == 1 ==> x == 3000
            &&& n > 1 ==> -(n - 1) <= 2 * ((x - 80) * (n - 1) - 5840 * i) <= n - 1
        },
{
    let n = drawn_readings(ms).len() as int;
    if n > 1 {
        let num = 80 * (n - 1) + 5840 * i;
        lemma_half_away(num, n - 1);
        let x = x_at(drawn_readings(ms), i);
        assert(x == half_away(num, n - 1));
        assert((x - 80) * (n - 1) == (n - 1) * x - 80 * (n - 1)) by (nonlinear_arith);
    }
}

} // verus!
