//! What the condition of a cell says, told of its readings alone.

use vstd::prelude::*;
use crate::dict::Dict;
use crate::health::{
    analysed, dominant, dominant_has_most_readings, group, instrument_text, last_of, leading_word,
    limit_under, others_of, outranked, retention_of, series_of, setup, with_resistance, Analysed,
    ByDate, NotOfSetup, OfSetup, Summary, WithResistance,
};
use crate::num::half_even;
use crate::order::{sorted_in_order, sorted_keeps_all, sorted_same_members, Order};
use crate::rows::{Battery, Measurement};
use crate::select::{kept, kept_members, lemma_kept_count, lemma_kept_holds, Test};
use crate::text::{alphanumeric, int_text, lemma_split_whole, split_on, text_lt, trimmed};

verus! {

// ── Dates ───────────────────────────────────────────────────────────────

/// Whether one text stands before another in a dictionary: they agree up to
/// some place, and there the first ends or has the smaller character.
pub open spec fn comes_before(a: Seq<char>, b: Seq<char>) -> bool {
    exists|k: int|
        0 <= k <= a.len() && k < b.len() && #[trigger] a.take(k) == b.take(k) && (k == a.len()
            || a[k] < b[k])
}

/// Texts are compared as in a dictionary.
pub proof fn texts_are_in_dictionary_order(a: Seq<char>, b: Seq<char>)
    ensures
        text_lt(a, b) <==> comes_before(a, b),
    decreases a.len(),
{
    if b.len() > 0 {
        if a.len() == 0 {
            assert(a.take(0) =~= b.take(0));
        } else if a[0] == b[0] {
            let x = a.skip(1);
            let y = b.skip(1);
            texts_are_in_dictionary_order(x, y);
            if comes_before(x, y) {
                let k = choose|k: int|
                    0 <= k <= x.len() && k < y.len() && #[trigger] x.take(k) == y.take(k) && (k
                        == x.len() || x[k] < y[k]);
                assert(a.take(k + 1) =~= b.take(k + 1)) by {
                    assert forall|i: int| 0 <= i < k + 1 implies #[trigger] a.take(k + 1)[i]
                        == b.take(k + 1)[i] by {
                        if i > 0 {
                            assert(x.take(k)[i - 1] == y.take(k)[i - 1]);
                        }
                    }
                }
            }
            if comes_before(a, b) {
                let k = choose|k: int|
                    0 <= k <= a.len() && k < b.len() && #[trigger] a.take(k) == b.take(k) && (k
                        == a.len() || a[k] < b[k]);
                assert(k > 0);
                assert(x.take(k - 1) =~= y.take(k - 1)) by {
                    assert forall|i: int| 0 <= i < k - 1 implies #[trigger] x.take(k - 1)[i]
                        == y.take(k - 1)[i] by {
                        assert(a.take(k)[i + 1] == b.take(k)[i + 1]);
                    }
                }
            }
        } else {
            if a[0] < b[0] {
                assert(a.take(0) =~= b.take(0));
            }
            if comes_before(a, b) {
                let k = choose|k: int|
                    0 <= k <= a.len() && k < b.len() && #[trigger] a.take(k) == b.take(k) && (k
                        == a.len() || a[k] < b[k]);
                if k > 0 {
                    assert(a.take(k)[0] == b.take(k)[0]);
                }
            }
        }
    }
}

/// Whether a reading was taken no later than another; of one moment, the one
/// with the smaller number came first.
pub open spec fn no_later(a: Measurement, b: Measurement) -> bool {
    comes_before(a.measured_at@, b.measured_at@) || (a.measured_at@ == b.measured_at@ && a.id
        <= b.id)
}

proof fn lemma_no_later(a: Measurement, b: Measurement)
    ensures
        ByDate.le(a, b) <==> no_later(a, b),
{
    texts_are_in_dictionary_order(a.measured_at@, b.measured_at@);
}

// ── The setup ───────────────────────────────────────────────────────────

/// The readings taken with one instrument at one discharge rate.
pub open spec fn taken_with(
    found: Seq<Measurement>,
    instrument_id: Option<i64>,
    discharge_ma: Option<i64>,
) -> Seq<Measurement> {
    found.filter(
        |m: Measurement| m.instrument_id == instrument_id && m.discharge_ma == discharge_ma,
    )
}

proof fn lemma_group(found: Seq<Measurement>, i: Option<i64>, d: Option<i64>)
    ensures
        group(found, (i, d)) == taken_with(found, i, d),
    decreases found.len(),
{
    reveal(Seq::filter);
    if found.len() > 0 {
        lemma_group(found.drop_last(), i, d);
    }
}

/// The dominant setup is the instrument and rate that most readings share. Of
/// two that equally many share, it is the one whose last reading is the later.
pub proof fn most_readings_decide_the_setup(found: Seq<Measurement>, i: int)
    requires
        0 <= i < found.len(),
    ensures
        dominant(found) matches Some((instrument_id, discharge_ma)) && {
            let here = taken_with(found, found[i].instrument_id, found[i].discharge_ma);
            let chosen = taken_with(found, instrument_id, discharge_ma);
            &&& chosen.len() > 0
            &&& here.len() <= chosen.len()
            &&& here.len() == chosen.len() ==> no_later(here.last(), chosen.last())
        },
{
    dominant_has_most_readings(found);
    let (a, b) = dominant(found)->0;
    assert(outranked(found, setup(found[i]), (a, b)));
    let k = choose|k: int| 0 <= k < found.len() && setup(#[trigger] found[k]) == (a, b);
    let p = OfSetup { setup: (a, b) };
    crate::select::lemma_kept_nonempty(p, found, k);
    lemma_group(found, a, b);
    lemma_group(found, found[i].instrument_id, found[i].discharge_ma);
    lemma_no_later(
        taken_with(found, found[i].instrument_id, found[i].discharge_ma).last(),
        taken_with(found, a, b).last(),
    );
}

// ── The summary ─────────────────────────────────────────────────────────

/// A reading that says what the cell holds.
pub open spec fn has_capacity(m: Measurement) -> bool {
    m.kind@ == "analysed"@ && m.capacity_mah is Some && m.capacity_mah != Some(0i64)
}

/// A reading that says how much the cell resists.
pub open spec fn has_resistance(m: Measurement) -> bool {
    m.ir_mohm is Some && m.ir_mohm != Some(0i64)
}

pub open spec fn by_date(s: Seq<Measurement>) -> bool {
    forall|i: int, j: int| 0 <= i < j < s.len() ==> no_later(#[trigger] s[i], #[trigger] s[j])
}

/// The trend of a cell: every capacity reading is in the series or among the
/// others, as often as it was made, and both are told oldest first. The series
/// shares one instrument and rate, which none of the others has. No other
/// instrument and rate has more readings, and one with as many has none that is
/// later than the latest of the series. A series there is wherever there is a
/// capacity reading.
pub open spec fn is_trend(
    series: Seq<Measurement>,
    others: Seq<Measurement>,
    ms: Seq<Measurement>,
) -> bool {
    &&& forall|m: Measurement|
        #![trigger series.to_multiset().count(m)]
        #![trigger others.to_multiset().count(m)]
        #![trigger ms.to_multiset().count(m)]
        series.to_multiset().count(m) + others.to_multiset().count(m) == (if has_capacity(m) {
            ms.to_multiset().count(m)
        } else {
            0
        })
    &&& by_date(series)
    &&& by_date(others)
    &&& series.len() == 0 ==> others.len() == 0
    &&& forall|i: int|
        0 <= i < series.len() ==> (#[trigger] series[i]).instrument_id == series[0].instrument_id
            && series[i].discharge_ma == series[0].discharge_ma
    &&& forall|i: int| 0 <= i < others.len() ==> yields(#[trigger] others[i], series, others)
}

/// A reading of another instrument or rate, which no more readings share than
/// the series has, and that is not later than the series where as many do.
pub open spec fn yields(
    o: Measurement,
    series: Seq<Measurement>,
    others: Seq<Measurement>,
) -> bool {
    let rivals = taken_with(others, o.instrument_id, o.discharge_ma);
    &&& o.instrument_id != series[0].instrument_id || o.discharge_ma != series[0].discharge_ma
    &&& rivals.len() <= series.len()
    &&& rivals.len() == series.len() ==> no_later(o, series.last())
}

/// The series and the others of any readings are the trend of the cell.
pub proof fn readings_make_the_trend(ms: Seq<Measurement>)
    ensures
        is_trend(series_of(ms), others_of(ms), ms),
{
    broadcast use vstd::seq_lib::group_to_multiset_ensures;

    let found = analysed(ms);
    let series = series_of(ms);
    let others = others_of(ms);
    sorted_keeps_all(ByDate, kept(Analysed, ms));
    sorted_in_order(ByDate, kept(Analysed, ms));
    lemma_by_date(found);
    if found.len() > 0 {
        dominant_has_most_readings(found);
        let s = dominant(found)->0;
        let p = OfSetup { setup: s };
        let q = NotOfSetup { setup: s };
        let k = choose|k: int| 0 <= k < found.len() && setup(#[trigger] found[k]) == s;
        crate::select::lemma_kept_nonempty(p, found, k);
        lemma_kept_by_date(p, found);
        lemma_kept_by_date(q, found);
        lemma_kept_holds(p, found);
        lemma_kept_holds(q, found);
        assert(setup(series[0]) == s);
        assert forall|i: int| 0 <= i < others.len() implies yields(
            #[trigger] others[i],
            series,
            others,
        ) by {
            let o = others[i];
            let t = setup(o);
            assert(q.holds(others[i]));
            lemma_rivals(found, s, t);
            lemma_group(others, t.0, t.1);
            let rivals = group(others, t);
            kept_members(q, found);
            assert(others.contains(o));
            let j = found.index_of(o);
            assert(outranked(found, setup(found[j]), s));
            if rivals.len() == series.len() {
                lemma_no_later(rivals.last(), series.last());
                kept_members(OfSetup { setup: t }, others);
                assert(rivals.contains(o));
                let r = rivals.index_of(o);
                lemma_kept_by_date(OfSetup { setup: t }, others);
                lemma_no_later(o, rivals.last());
                lemma_no_later(o, series.last());
                if r < rivals.len() - 1 {
                    assert(no_later(rivals[r], rivals[rivals.len() - 1]));
                    ByDate.trans(o, rivals.last(), series.last());
                }
            }
        }
        assert forall|i: int| 0 <= i < series.len() implies (
        #[trigger] series[i]).instrument_id == series[0].instrument_id && series[i].discharge_ma
            == series[0].discharge_ma by {
            assert(p.holds(series[i]) && p.holds(series[0]));
        }
    }
    assert forall|m: Measurement|
        #![trigger series.to_multiset().count(m)]
        #![trigger others.to_multiset().count(m)]
        #![trigger ms.to_multiset().count(m)]
        series.to_multiset().count(m) + others.to_multiset().count(m) == (if has_capacity(m) {
            ms.to_multiset().count(m)
        } else {
            0
        }) by {
        lemma_kept_count(Analysed, ms, m);
        if found.len() > 0 {
            let s = dominant(found)->0;
            lemma_kept_count(OfSetup { setup: s }, found, m);
            lemma_kept_count(NotOfSetup { setup: s }, found, m);
        } else {
            crate::select::lemma_none_count(found, m);
            crate::select::lemma_none_count(series, m);
        }
    }
}

pub proof fn lemma_by_date(s: Seq<Measurement>)
    requires
        crate::order::in_order(ByDate, s),
    ensures
        by_date(s),
{
    assert forall|i: int, j: int| 0 <= i < j < s.len() implies no_later(
        #[trigger] s[i],
        #[trigger] s[j],
    ) by {
        assert(ByDate.le(s[i], s[j]));
        lemma_no_later(s[i], s[j]);
    }
}

/// What is kept stays in order.
proof fn lemma_kept_by_date<P: Test<Measurement>>(p: P, s: Seq<Measurement>)
    requires
        by_date(s),
    ensures
        by_date(kept(p, s)),
    decreases s.len(),
{
    if s.len() > 0 {
        let d = s.drop_last();
        assert forall|i: int, j: int| 0 <= i < j < d.len() implies no_later(
            #[trigger] d[i],
            #[trigger] d[j],
        ) by {
            assert(no_later(s[i], s[j]));
        }
        lemma_kept_by_date(p, d);
        let k = kept(p, d);
        kept_members(p, d);
        if p.holds(s.last()) {
            let r = kept(p, s);
            assert forall|i: int, j: int| 0 <= i < j < r.len() implies no_later(
                #[trigger] r[i],
                #[trigger] r[j],
            ) by {
                if j == r.len() - 1 {
                    assert(k.contains(k[i]));
                    let x = d.index_of(k[i]);
                    assert(no_later(s[x], s[s.len() - 1]));
                } else {
                    assert(no_later(k[i], k[j]));
                }
            }
        }
    }
}

/// Leaving one setup out leaves the others whole.
proof fn lemma_rivals(found: Seq<Measurement>, s: (Option<i64>, Option<i64>), t: (
    Option<i64>,
    Option<i64>,
))
    requires
        s != t,
    ensures
        group(kept(NotOfSetup { setup: s }, found), t) == group(found, t),
    decreases found.len(),
{
    if found.len() > 0 {
        let q = NotOfSetup { setup: s };
        let d = found.drop_last();
        lemma_rivals(d, s, t);
        if q.holds(found.last()) {
            assert(kept(q, found).drop_last() =~= kept(q, d));
        }
    }
}

/// A share in percent to the nearest whole number, a tie to the even one; as far
/// as whole numbers of this size reach.
pub open spec fn is_percentage(r: i64, part: int, whole: int) -> bool {
    &&& whole > 0 ==> {
        &&& r < i64::MAX ==> 200 * part <= (2 * r + 1) * whole
        &&& r > i64::MIN ==> 200 * part >= (2 * r - 1) * whole
        &&& i64::MIN < r < i64::MAX && (200 * part == (2 * r + 1) * whole || 200 * part == (2 * r
            - 1) * whole) ==> r % 2 == 0
    }
    &&& whole < 0 ==> {
        &&& r < i64::MAX ==> 200 * part >= (2 * r + 1) * whole
        &&& r > i64::MIN ==> 200 * part <= (2 * r - 1) * whole
        &&& i64::MIN < r < i64::MAX && (200 * part == (2 * r + 1) * whole || 200 * part == (2 * r
            - 1) * whole) ==> r % 2 == 0
    }
}

proof fn lemma_half_even(num: int, den: int)
    requires
        den > 0,
    ensures
        ({
            let r = half_even(num, den);
            &&& 2 * num <= (2 * r + 1) * den
            &&& 2 * num >= (2 * r - 1) * den
            &&& (2 * num == (2 * r + 1) * den || 2 * num == (2 * r - 1) * den) ==> r % 2 == 0
        }),
{
    vstd::arithmetic::div_mod::lemma_fundamental_div_mod(num, den);
    let f = num / den;
    let m = num % den;
    let r = half_even(num, den);
    assert(2 * num == 2 * (den * f) + 2 * m);
    assert((2 * r + 1) * den == 2 * (den * r) + den && (2 * r - 1) * den == 2 * (den * r) - den)
        by (nonlinear_arith);
    assert(den * (f + 1) == den * f + den) by (nonlinear_arith);
}

/// The health of a cell is the capacity that was read last, in the setup that
/// most readings share, as a percentage of the nominal capacity. There is one
/// wherever there is such a reading and a nominal capacity that is not nothing.
pub proof fn health_is_the_latest_share(nominal_mah: Option<i64>, ms: Seq<Measurement>)
    ensures
        match retention_of(nominal_mah, ms) {
            Some(r) => {
                &&& nominal_mah matches Some(n) && n != 0
                &&& series_of(ms).len() > 0
                &&& series_of(ms).last().capacity_mah matches Some(c) && is_percentage(
                    r,
                    c as int,
                    nominal_mah->0 as int,
                )
            },
            None => nominal_mah is None || nominal_mah == Some(0i64) || series_of(ms).len() == 0,
        },
{
    let series = series_of(ms);
    if series.len() > 0 {
        let found = analysed(ms);
        kept_members(OfSetup { setup: dominant(found)->0 }, found);
        assert(series.contains(series.last()));
        sorted_same_members(ByDate, kept(Analysed, ms));
        assert(found.contains(series.last()));
        lemma_kept_holds(Analysed, ms);
        let k = kept(Analysed, ms).index_of(series.last());
        assert(Analysed.holds(kept(Analysed, ms)[k]));
        let c = series.last().capacity_mah->0;
        if let Some(n) = nominal_mah {
            if n > 0 {
                lemma_half_even(100 * c, n as int);
                let e = half_even(100 * c, n as int);
                let r = retention_of(nominal_mah, ms)->0;
                assert(e > i64::MAX ==> (2 * i64::MAX - 1) * n <= (2 * e - 1) * n) by (
                    nonlinear_arith)
                    requires
                        n > 0,
                ;
                assert(e < i64::MIN ==> (2 * i64::MIN + 1) * n >= (2 * e + 1) * n) by (
                    nonlinear_arith)
                    requires
                        n > 0,
                ;
            } else if n < 0 {
                let m = -n as int;
                lemma_half_even(-100 * c, m);
                let e = half_even(-100 * c, m);
                assert(e > i64::MAX ==> (2 * i64::MAX - 1) * m <= (2 * e - 1) * m) by (
                    nonlinear_arith)
                    requires
                        m > 0,
                ;
                assert(e < i64::MIN ==> (2 * i64::MIN + 1) * m >= (2 * e + 1) * m) by (
                    nonlinear_arith)
                    requires
                        m > 0,
                ;
                let r = retention_of(nominal_mah, ms)->0;
                assert((2 * r + 1) * m == -((2 * r + 1) * n) && (2 * r - 1) * m == -((2 * r - 1)
                    * n)) by (nonlinear_arith)
                    requires
                        m == -n,
                ;
            }
        }
    }
}

/// The last of some readings: one that there is, and none was taken later.
pub open spec fn is_latest(m: Measurement, s: Seq<Measurement>, p: spec_fn(Measurement) -> bool) -> bool {
    &&& s.contains(m)
    &&& p(m)
    &&& forall|o: Measurement| #[trigger] s.contains(o) && p(o) ==> no_later(o, m)
}

/// The first of some readings.
pub open spec fn is_first(m: Measurement, s: Seq<Measurement>, p: spec_fn(Measurement) -> bool) -> bool {
    &&& s.contains(m)
    &&& p(m)
    &&& forall|o: Measurement| #[trigger] s.contains(o) && p(o) ==> no_later(m, o)
}

/// The first and the last reading of a resistance.
pub proof fn resistances_by_date(ms: Seq<Measurement>)
    ensures
        ({
            let r = with_resistance(ms);
            &&& r.len() == 0 <==> forall|m: Measurement| #[trigger]
                ms.contains(m) ==> !has_resistance(m)
            &&& r.len() > 0 ==> is_first(r[0], ms, |m: Measurement| has_resistance(m))
                && is_latest(r.last(), ms, |m: Measurement| has_resistance(m))
        }),
{
    let k = kept(WithResistance, ms);
    let r = with_resistance(ms);
    sorted_keeps_all(ByDate, k);
    sorted_same_members(ByDate, k);
    sorted_in_order(ByDate, k);
    kept_members(WithResistance, ms);
    lemma_by_date(r);
    if r.len() > 0 {
        assert(r.contains(r[0]) && r.contains(r.last()));
        assert forall|o: Measurement| #[trigger] ms.contains(o) && has_resistance(o) implies
            no_later(o, r.last()) && no_later(r[0], o) by {
            assert(k.contains(o));
            assert(r.contains(o));
            let i = r.index_of(o);
            if i < r.len() - 1 {
                assert(no_later(r[i], r[r.len() - 1]));
            }
            if i > 0 {
                assert(no_later(r[0], r[i]));
            }
        }
        assert(k.contains(r[0]));
    } else {
        assert forall|m: Measurement| #[trigger] ms.contains(m) implies !has_resistance(m) by {
            assert(!r.contains(m));
            assert(!k.contains(m));
        }
    }
}

/// The first and the last reading of a capacity.
pub proof fn capacities_by_date(ms: Seq<Measurement>)
    ensures
        ({
            let r = analysed(ms);
            &&& r.len() == 0 <==> forall|m: Measurement| #[trigger]
                ms.contains(m) ==> !has_capacity(m)
            &&& r.len() > 0 ==> is_first(r[0], ms, |m: Measurement| has_capacity(m))
                && is_latest(r.last(), ms, |m: Measurement| has_capacity(m))
        }),
{
    let k = kept(Analysed, ms);
    let r = analysed(ms);
    sorted_keeps_all(ByDate, k);
    sorted_same_members(ByDate, k);
    sorted_in_order(ByDate, k);
    kept_members(Analysed, ms);
    lemma_by_date(r);
    if r.len() > 0 {
        assert(r.contains(r[0]) && r.contains(r.last()));
        assert forall|o: Measurement| #[trigger] ms.contains(o) && has_capacity(o) implies
            no_later(o, r.last()) && no_later(r[0], o) by {
            assert(k.contains(o));
            assert(r.contains(o));
            let i = r.index_of(o);
            if i < r.len() - 1 {
                assert(no_later(r[i], r[r.len() - 1]));
            }
            if i > 0 {
                assert(no_later(r[0], r[i]));
            }
        }
        assert(k.contains(r[0]));
    } else {
        assert forall|m: Measurement| #[trigger] ms.contains(m) implies !has_capacity(m) by {
            assert(!r.contains(m));
            assert(!k.contains(m));
        }
    }
}

/// The whole condition of a cell. Its trend, its health and what is newer than
/// the trend go by the capacity readings alone; the resistance is that of the
/// last reading that has one, held against the limit for the type.
pub proof fn a_summary_tells_the_condition(
    s: Summary,
    battery: Battery,
    ms: Seq<Measurement>,
    limits: Dict<i64>,
    health_limit: Option<i64>,
    names: Map<i64, String>,
)
    requires
        s.describes(battery, ms, limits, health_limit, names),
    ensures
        is_trend(s.series@, s.others@, ms),
        s.latest == (if s.series@.len() == 0 {
            None
        } else {
            Some(s.series@.last())
        }),
        s.retention is Some <==> s.latest is Some && battery.nominal_mah is Some
            && battery.nominal_mah != Some(0i64),
        s.retention matches Some(r) ==> is_percentage(
            r,
            s.latest->0.capacity_mah->0 as int,
            battery.nominal_mah->0 as int,
        ),
        s.health_low <==> (s.retention matches Some(r) && (health_limit matches Some(l) && l != 0
            && r < l)),
        s.unavailable@.len() == 0 <==> s.retention is Some,
        forall|m: Measurement|
            #![trigger s.newer@.to_multiset().count(m)]
            s.newer@.to_multiset().count(m) == (if s.latest is Some && !no_later(m, s.latest->0) {
                s.others@.to_multiset().count(m)
            } else {
                0
            }),
        match s.ir_latest {
            Some(m) => is_latest(m, ms, |m: Measurement| has_resistance(m)) && (
            s.ir_first matches Some(f) && is_first(f, ms, |m: Measurement| has_resistance(m))),
            None => s.ir_first is None && forall|m: Measurement| #[trigger]
                ms.contains(m) ==> !has_resistance(m),
        },
        s.ir_over_limit <==> (s.ir_latest matches Some(m) && (s.ir_limit matches Some(l)
            && m.ir_mohm->0 >= l)),
        s.ir_unchecked <==> s.ir_latest is Some && s.ir_limit is None,
        s.ir_change is Some <==> s.ir_latest is Some && s.ir_latest->0.id != s.ir_first->0.id,
        s.ir_change matches Some(c) ==> (i64::MIN < c < i64::MAX ==> c
            == s.ir_latest->0.ir_mohm->0 - s.ir_first->0.ir_mohm->0),
        s.latest matches Some(l) ==> {
            let name = match l.instrument_id {
                None => "an unnamed instrument"@,
                Some(i) => if names.contains_key(i) {
                    names[i]@
                } else {
                    "a deleted instrument"@
                },
            };
            s.setup@ == (match l.discharge_ma {
                Some(d) if d != 0 => name + " at "@ + int_text(d as int) + " mA"@,
                _ => name + ", rate not recorded"@,
            })
        },
{
    broadcast use vstd::seq_lib::group_to_multiset_ensures;

    readings_make_the_trend(ms);
    health_is_the_latest_share(battery.nominal_mah, ms);
    resistances_by_date(ms);
    let found = analysed(ms);
    reveal_strlit(
        "No analysis has been recorded yet. Health is the measured capacity as a percentage of the nominal one, so it needs a discharge measurement to exist.",
    );
    reveal_strlit(
        "This battery has no nominal capacity recorded, so there is nothing to measure the analysis against. Add one under Details.",
    );
    if found.len() > 0 {
        dominant_has_most_readings(found);
        let t = dominant(found)->0;
        let k = choose|k: int| 0 <= k < found.len() && setup(#[trigger] found[k]) == t;
        crate::select::lemma_kept_nonempty(OfSetup { setup: t }, found, k);
        lemma_kept_holds(OfSetup { setup: t }, found);
        let series = series_of(ms);
        assert(OfSetup { setup: t }.holds(series[series.len() - 1]));
    }
    assert forall|m: Measurement|
        #![trigger s.newer@.to_multiset().count(m)]
        s.newer@.to_multiset().count(m) == (if s.latest is Some && !no_later(m, s.latest->0) {
            s.others@.to_multiset().count(m)
        } else {
            0
        }) by {
        match last_of(series_of(ms)) {
            Some(l) => {
                let p = crate::health::Newer { measured_at: l.measured_at, id: l.id };
                lemma_kept_count(p, others_of(ms), m);
                lemma_no_later(m, l);
            },
            None => {
                crate::select::lemma_none_count(s.newer@, m);
            },
        }
    }
}

/// The limit for a type stands under the whole of it, in capitals and trimmed,
/// or else under what is left of the part before its first space once only
/// letters and numbers are kept.
pub proof fn a_limit_goes_by_the_leading_word(written: Seq<char>, limits: Dict<i64>, k: int)
    requires
        0 <= k <= written.len(),
        k < written.len() ==> written[k] == ' ',
        forall|i: int| 0 <= i < k ==> written[i] != ' ',
    ensures
        limits.spec_get(written) is Some ==> limit_under(written, limits) == limits.spec_get(
            written,
        ),
        limits.spec_get(written) is None ==> limit_under(written, limits) == limits.spec_get(
            written.take(k).filter(|c: char| alphanumeric(c)),
        ),
{
    lemma_leading_word(written, k);
}

/// The leading word is what is left of the part before the first space.
pub proof fn lemma_leading_word(written: Seq<char>, k: int)
    requires
        0 <= k <= written.len(),
        k < written.len() ==> written[k] == ' ',
        forall|i: int| 0 <= i < k ==> written[i] != ' ',
    ensures
        leading_word(written) == written.take(k).filter(|c: char| alphanumeric(c)),
{
    let head = written.take(k);
    lemma_split_whole(head, ' ');
    if k < written.len() {
        let rest = written.skip(k + 1);
        assert(written =~= head.push(' ') + rest);
        crate::text::lemma_split_sides(head, ' ', rest);
    } else {
        assert(head =~= written);
    }
    assert(split_on(written, ' ')[0] == head);
    lemma_alphanumerics(head);
}

proof fn lemma_alphanumerics(s: Seq<char>)
    ensures
        crate::health::alphanumerics(s) == s.filter(|c: char| alphanumeric(c)),
    decreases s.len(),
{
    reveal(Seq::filter);
    if s.len() > 0 {
        lemma_alphanumerics(s.drop_last());
    }
}

/// An instrument goes by its name where it has one; one that is gone and one that
/// was never named are told apart.
pub proof fn an_instrument_is_named(id: Option<i64>, names: Map<i64, String>)
    ensures
        id matches Some(i) && names.dom().contains(i) ==> instrument_text(id, names)
            == names[id->0]@,
        id is Some && !names.dom().contains(id->0) ==> instrument_text(id, names)
            == "a deleted instrument"@,
        id is None ==> instrument_text(id, names) == "an unnamed instrument"@,
{
}

} // verus!
