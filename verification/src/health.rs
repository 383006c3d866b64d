//! What a battery's readings mean.

use std::collections::HashMap;

use vstd::prelude::*;
use vstd::string::*;
use crate::chart::{chart, chart_of, Chart};
use crate::dict::Dict;
use crate::num::{
    clamp_i64, clamped, half_even, half_even_is_monotone, half_even_of_a_multiple, round_half_even,
};
use crate::order::{
    dated_before, dated_le, inserted, lemma_dated_total, lemma_dated_trans, sort, sorted,
    sorted_keeps_all, Order,
};
use crate::rows::{Battery, Measurement};
use crate::select::{kept, kept_members, lemma_kept_nonempty, select, Test};
use crate::text::{
    alphanumeric, int_text, is_alphanumeric, push_int, same, split, split_on, to_upper, trim, trimmed,
    uppercased,
};

verus! {

/// The same instrument at the same discharge rate. The procedure is left out
/// on purpose: the rate is what decides the number.
pub type Setup = (Option<i64>, Option<i64>);

pub open spec fn or_zero(o: Option<i64>) -> i64 {
    match o {
        Some(v) => v,
        None => 0,
    }
}

pub fn value_or_zero(o: Option<i64>) -> (r: i64)
    ensures
        r == or_zero(o),
{
    match o {
        Some(v) => v,
        None => 0,
    }
}

fn same_number(a: Option<i64>, b: Option<i64>) -> (r: bool)
    ensures
        r == (a == b),
{
    match (a, b) {
        (Some(x), Some(y)) => x == y,
        (None, None) => true,
        _ => false,
    }
}

/// Readings in the order they were taken, those of one moment by their id.
pub struct ByDate;

impl Order<Measurement> for ByDate {
    open spec fn le(&self, a: Measurement, b: Measurement) -> bool {
        dated_le(a.measured_at@, a.id, b.measured_at@, b.id)
    }

    proof fn total(&self, a: Measurement, b: Measurement) {
        lemma_dated_total(a.measured_at@, a.id, b.measured_at@, b.id);
    }

    proof fn trans(&self, a: Measurement, b: Measurement, c: Measurement) {
        lemma_dated_trans(a.measured_at@, a.id, b.measured_at@, b.id, c.measured_at@, c.id);
    }

    fn is_le(&self, a: &Measurement, b: &Measurement) -> (r: bool) {
        dated_before(a.measured_at.as_str(), a.id, b.measured_at.as_str(), b.id)
    }
}

/// A reading that produced a capacity.
pub struct Analysed;

impl Test<Measurement> for Analysed {
    open spec fn holds(&self, m: Measurement) -> bool {
        m.kind@ == "analysed"@ && or_zero(m.capacity_mah) != 0
    }

    fn check(&self, m: &Measurement) -> (r: bool) {
        same(m.kind.as_str(), "analysed") && value_or_zero(m.capacity_mah) != 0
    }
}

/// A reading that produced a resistance.
pub struct WithResistance;

impl Test<Measurement> for WithResistance {
    open spec fn holds(&self, m: Measurement) -> bool {
        or_zero(m.ir_mohm) != 0
    }

    fn check(&self, m: &Measurement) -> (r: bool) {
        value_or_zero(m.ir_mohm) != 0
    }
}

/// The readings that produced a capacity, oldest first.
pub open spec fn analysed(ms: Seq<Measurement>) -> Seq<Measurement> {
    sorted(ByDate, kept(Analysed, ms))
}

/// The readings that produced a resistance, oldest first.
pub open spec fn with_resistance(ms: Seq<Measurement>) -> Seq<Measurement> {
    sorted(ByDate, kept(WithResistance, ms))
}

/// Readings that produced a capacity, oldest first.
pub fn analyses(measurements: &Vec<Measurement>) -> (r: Vec<Measurement>)
    ensures
        r@ == analysed(measurements@),
{
    sort(&ByDate, select(&Analysed, measurements))
}

/// Readings that produced a resistance, oldest first.
pub fn readings_with_ir(measurements: &Vec<Measurement>) -> (r: Vec<Measurement>)
    ensures
        r@ == with_resistance(measurements@),
{
    sort(&ByDate, select(&WithResistance, measurements))
}

pub open spec fn setup(m: Measurement) -> Setup {
    (m.instrument_id, m.discharge_ma)
}

/// The instrument and the discharge rate of a reading.
pub fn setup_of(m: &Measurement) -> (r: Setup)
    ensures
        r == setup(*m),
{
    (m.instrument_id, m.discharge_ma)
}

pub open spec fn instrument_text(id: Option<i64>, names: Map<i64, String>) -> Seq<char> {
    match id {
        Some(i) => if names.dom().contains(i) {
            names[i]@
        } else {
            "a deleted instrument"@
        },
        None => "an unnamed instrument"@,
    }
}

/// The name of an instrument that a reading came from.
pub fn instrument_name(id: Option<i64>, instrument_names: &HashMap<i64, String>) -> (r: String)
    ensures
        r@ == instrument_text(id, instrument_names@),
{
    broadcast use vstd::std_specs::hash::group_hash_axioms;

    match id {
        Some(i) => match instrument_names.get(&i) {
            Some(name) => name.clone(),
            None => "a deleted instrument".to_string(),
        },
        None => "an unnamed instrument".to_string(),
    }
}

pub open spec fn setup_text(s: Setup, names: Map<i64, String>) -> Seq<char> {
    if or_zero(s.1) != 0 {
        instrument_text(s.0, names) + " at "@ + int_text(or_zero(s.1) as int) + " mA"@
    } else {
        instrument_text(s.0, names) + ", rate not recorded"@
    }
}

/// A setup in words: the instrument and the rate it discharged at.
pub fn describe_setup(s: Setup, instrument_names: &HashMap<i64, String>) -> (r: String)
    ensures
        r@ == setup_text(s, instrument_names@),
{
    let mut out = instrument_name(s.0, instrument_names);
    match s.1 {
        Some(rate) if rate != 0 => {
            out.append(" at ");
            push_int(&mut out, rate as i128);
            out.append(" mA");
        },
        _ => {
            out.append(", rate not recorded");
        },
    }
    out
}

// ── The dominant setup ──────────────────────────────────────────────────

/// A reading taken in the given setup.
pub struct OfSetup {
    pub setup: Setup,
}

impl Test<Measurement> for OfSetup {
    open spec fn holds(&self, m: Measurement) -> bool {
        setup(m) == self.setup
    }

    fn check(&self, m: &Measurement) -> (r: bool) {
        same_number(m.instrument_id, self.setup.0) && same_number(m.discharge_ma, self.setup.1)
    }
}

/// A reading taken in any other setup.
pub struct NotOfSetup {
    pub setup: Setup,
}

impl Test<Measurement> for NotOfSetup {
    open spec fn holds(&self, m: Measurement) -> bool {
        setup(m) != self.setup
    }

    fn check(&self, m: &Measurement) -> (r: bool) {
        !(same_number(m.instrument_id, self.setup.0) && same_number(m.discharge_ma, self.setup.1))
    }
}

/// The readings of `found` that were taken in setup `s`.
pub open spec fn group(found: Seq<Measurement>, s: Setup) -> Seq<Measurement> {
    kept(OfSetup { setup: s }, found)
}

/// `s` does not outrank `t`: it has fewer readings, or as many and its last
/// one is no newer.
pub open spec fn outranked(found: Seq<Measurement>, s: Setup, t: Setup) -> bool {
    let a = group(found, s);
    let b = group(found, t);
    a.len() < b.len() || (a.len() == b.len() && ByDate.le(a.last(), b.last()))
}

/// The setup that no setup among the first `n` readings outranks, the
/// earliest such.
pub open spec fn dominant_among(found: Seq<Measurement>, n: int) -> Setup
    decreases n,
{
    if n <= 1 {
        setup(found[0])
    } else {
        let best = dominant_among(found, n - 1);
        if outranked(found, setup(found[n - 1]), best) {
            best
        } else {
            setup(found[n - 1])
        }
    }
}

pub open spec fn dominant(found: Seq<Measurement>) -> Option<Setup> {
    if found.len() == 0 {
        None
    } else {
        Some(dominant_among(found, found.len() as int))
    }
}

/// The dominant setup is one that readings were taken in, and no other has
/// more readings, nor as many with a newer last one.
pub proof fn dominant_has_most_readings(found: Seq<Measurement>)
    requires
        found.len() > 0,
    ensures
        dominant(found) is Some,
        exists|i: int| 0 <= i < found.len() && setup(#[trigger] found[i]) == dominant(found)->0,
        forall|i: int|
            0 <= i < found.len() ==> outranked(
                found,
                setup(#[trigger] found[i]),
                dominant(found)->0,
            ),
{
    lemma_dominant_among(found, found.len() as int);
}

proof fn lemma_outranked_total(found: Seq<Measurement>, s: Setup, t: Setup)
    ensures
        outranked(found, s, t) || outranked(found, t, s),
{
    let a = group(found, s);
    let b = group(found, t);
    ByDate.total(a.last(), b.last());
}

proof fn lemma_dominant_among(found: Seq<Measurement>, n: int)
    requires
        1 <= n <= found.len(),
    ensures
        exists|i: int| 0 <= i < n && setup(#[trigger] found[i]) == dominant_among(found, n),
        forall|i: int|
            0 <= i < n ==> outranked(found, setup(#[trigger] found[i]), dominant_among(found, n)),
    decreases n,
{
    let d = dominant_among(found, n);
    if n == 1 {
        assert(setup(found[0]) == d);
        lemma_outranked_total(found, d, d);
    } else {
        lemma_dominant_among(found, n - 1);
        let best = dominant_among(found, n - 1);
        let s = setup(found[n - 1]);
        if outranked(found, s, best) {
            let i = choose|i: int| 0 <= i < n - 1 && setup(#[trigger] found[i]) == best;
            assert(setup(found[i]) == d);
        } else {
            lemma_outranked_total(found, s, best);
            lemma_outranked_total(found, s, s);
            assert(setup(found[n - 1]) == d);
            assert forall|i: int| 0 <= i < n implies outranked(
                found,
                setup(#[trigger] found[i]),
                d,
            ) by {
                if i < n - 1 {
                    let t = setup(found[i]);
                    let a = group(found, t);
                    let b = group(found, best);
                    let c = group(found, s);
                    if a.len() == b.len() && b.len() == c.len() {
                        ByDate.trans(a.last(), b.last(), c.last());
                    }
                }
            }
        }
    }
}

/// The setup a cell's capacity trend belongs to: the one with the most
/// readings, ties going to whichever holds the newer reading.
pub fn dominant_setup(found: &Vec<Measurement>) -> (r: Option<Setup>)
    ensures
        r == dominant(found@),
{
    if found.len() == 0 {
        return None;
    }
    let mut best = setup_of(&found[0]);
    let mut best_group = select(&OfSetup { setup: best }, found);
    let mut i: usize = 1;
    while i < found.len()
        invariant
            1 <= i <= found@.len(),
            best == dominant_among(found@, i as int),
            best_group@ == group(found@, best),
            exists|j: int| 0 <= j < found@.len() && setup(#[trigger] found@[j]) == best,
        decreases found@.len() - i,
    {
        let here = setup_of(&found[i]);
        let here_group = select(&OfSetup { setup: here }, found);
        proof {
            let p = OfSetup { setup: here };
            lemma_kept_nonempty(p, found@, i as int);
            let j = choose|j: int| 0 <= j < found@.len() && setup(#[trigger] found@[j]) == best;
            let q = OfSetup { setup: best };
            lemma_kept_nonempty(q, found@, j);
        }
        let kept_back = here_group.len() < best_group.len() || (here_group.len()
            == best_group.len() && ByDate.is_le(
            &here_group[here_group.len() - 1],
            &best_group[best_group.len() - 1],
        ));
        if !kept_back {
            best = here;
            best_group = here_group;
        }
        i = i + 1;
    }
    Some(best)
}

// ── Colour ──────────────────────────────────────────────────────────────

/// The limit that the colours turn at: the one that is set, or eighty.
pub open spec fn turning_point(health_limit: Option<i64>) -> i64 {
    if or_zero(health_limit) != 0 {
        or_zero(health_limit)
    } else {
        80
    }
}

/// A retention as it is coloured, from nothing to everything.
pub open spec fn percent(retention: i64) -> int {
    if retention < 0 {
        0
    } else if retention > 100 {
        100
    } else {
        retention as int
    }
}

/// The hue of a health percentage: 0 at 0 %, 45 at the limit, 130 at 100 %,
/// on a straight line in between, to the nearest degree.
pub open spec fn hue(retention: i64, health_limit: Option<i64>) -> int {
    let limit = turning_point(health_limit) as int;
    let pct = percent(retention);
    if pct >= limit {
        let span = if 100 - limit > 1 {
            100 - limit
        } else {
            1
        };
        half_even(45 * span + 85 * (pct - limit), span)
    } else {
        half_even(
            45 * pct,
            if limit > 1 {
                limit
            } else {
                1
            },
        )
    }
}

/// The colour runs one way only, from red at nothing to green at everything: a
/// cell that holds more is never shown redder than one that holds less. With a
/// limit between nothing and everything it is amber just at the limit.
pub proof fn colours_run_from_red_to_green(p: i64, q: i64, health_limit: Option<i64>)
    ensures
        0 <= hue(p, health_limit) <= 130,
        p <= q ==> hue(p, health_limit) <= hue(q, health_limit),
        0 < turning_point(health_limit) && p <= 0 ==> hue(p, health_limit) == 0,
        0 < turning_point(health_limit) <= 100 && p == turning_point(health_limit) ==> hue(
            p,
            health_limit,
        ) == 45,
        turning_point(health_limit) < 100 && p >= 100 ==> hue(p, health_limit) == 130,
{
    let limit = turning_point(health_limit) as int;
    let x = percent(p);
    let y = percent(q);
    lemma_hue(x, limit);
    lemma_hue(y, limit);
    if p <= q {
        if x >= limit {
            let span = if 100 - limit > 1 {
                100 - limit
            } else {
                1
            };
            half_even_is_monotone(
                45 * span + 85 * (x - limit),
                45 * span + 85 * (y - limit),
                span,
            );
        } else if y < limit {
            half_even_is_monotone(45 * x, 45 * y, limit);
        }
    }
}

/// Up to the limit the colours lie between the first two ends, and from there
/// on between the last two.
proof fn lemma_hue(x: int, limit: int)
    requires
        0 <= x <= 100,
    ensures
        x < limit ==> 0 <= half_even(45 * x, limit) <= 45,
        x == 0 && 0 < limit ==> half_even(45 * x, limit) == 0,
        x >= limit && 100 - limit > 1 ==> 45 <= half_even(
            45 * (100 - limit) + 85 * (x - limit),
            100 - limit,
        ) <= 130,
        x == 100 && 100 - limit > 1 ==> half_even(
            45 * (100 - limit) + 85 * (x - limit),
            100 - limit,
        ) == 130,
        x >= limit && 100 - limit <= 1 ==> 45 <= half_even(45 + 85 * (x - limit), 1) <= 130,
        x >= limit && 100 - limit == 1 ==> half_even(45 + 85 * (x - limit), 1) == 45 + 85 * (x
            - limit),
        x == limit && 100 - limit > 1 ==> half_even(
            45 * (100 - limit) + 85 * (x - limit),
            100 - limit,
        ) == 45,
        x == limit && 100 - limit <= 1 ==> half_even(45 + 85 * (x - limit), 1) == 45,
{
    if x < limit {
        half_even_of_a_multiple(0, limit);
        half_even_of_a_multiple(45, limit);
        half_even_is_monotone(0, 45 * x, limit);
        half_even_is_monotone(45 * x, 45 * limit, limit);
    } else if 100 - limit > 1 {
        let span = 100 - limit;
        half_even_of_a_multiple(45, span);
        half_even_of_a_multiple(130, span);
        half_even_is_monotone(45 * span, 45 * span + 85 * (x - limit), span);
        half_even_is_monotone(45 * span + 85 * (x - limit), 130 * span, span);
    } else {
        half_even_of_a_multiple(45 + 85 * (x - limit), 1);
    }
}

/// A background colour for a health percentage: red at 0 %, green at 100 %,
/// with `health_limit` as the middle of the ramp. With no measured health it
/// is a neutral grey.
pub fn health_color(retention: Option<i64>, health_limit: Option<i64>) -> (r: String)
    ensures
        r@ == (match retention {
            None => "#2a2f3d"@,
            Some(p) => "hsl("@ + int_text(hue(p, health_limit)) + ", 55%, 22%)"@,
        }),
{
    let retention = match retention {
        Some(p) => p,
        None => return "#2a2f3d".to_string(),
    };
    let given = value_or_zero(health_limit);
    let limit: i128 = if given != 0 {
        given as i128
    } else {
        80
    };
    let pct: i128 = if retention < 0 {
        0
    } else if retention > 100 {
        100
    } else {
        retention as i128
    };
    let h: i128 = if pct >= limit {
        let span: i128 = if 100 - limit > 1 {
            100 - limit
        } else {
            1
        };
        round_half_even(45 * span + 85 * (pct - limit), span)
    } else {
        round_half_even(
            45 * pct,
            if limit > 1 {
                limit
            } else {
                1
            },
        )
    };
    let mut out = "hsl(".to_string();
    assert(h == hue(retention, health_limit));
    assert(h > i128::MIN);
    push_int(&mut out, h);
    out.append(", 55%, 22%)");
    out
}

// ── Limits ──────────────────────────────────────────────────────────────

pub open spec fn alphanumerics(s: Seq<char>) -> Seq<char>
    decreases s.len(),
{
    if s.len() == 0 {
        s
    } else if alphanumeric(s.last()) {
        alphanumerics(s.drop_last()).push(s.last())
    } else {
        alphanumerics(s.drop_last())
    }
}

/// The leading word of a type, without what is neither letter nor number.
pub open spec fn leading_word(written: Seq<char>) -> Seq<char> {
    alphanumerics(split_on(written, ' ')[0])
}

/// The limit under a whole type in capitals, else the one under its leading
/// word.
pub open spec fn limit_under(written: Seq<char>, limits: Dict<i64>) -> Option<i64> {
    match limits.spec_get(written) {
        Some(v) => Some(v),
        None => limits.spec_get(leading_word(written)),
    }
}

/// The limit for a type as it was typed.
pub open spec fn limit_of(cell_type: Seq<char>, limits: Dict<i64>) -> Option<i64> {
    limit_under(uppercased(trimmed(cell_type)), limits)
}

/// The resistance limit for a cell of this type, tried as the whole type
/// first, next as its leading word (so "AA (Eneloop)" matches "AA", and "AAA"
/// is never mistaken for "AA").
pub fn limit_for(battery: &Battery, limits: &Dict<i64>) -> (r: Option<i64>)
    ensures
        r == limit_of(battery.cell_type@, *limits),
{
    limit_of_written(to_upper(trim(battery.cell_type.as_str())).as_str(), limits)
}

/// The limit for a type that is trimmed and in capitals.
pub fn limit_of_written(written: &str, limits: &Dict<i64>) -> (r: Option<i64>)
    ensures
        r == limit_under(written@, *limits),
{
    if let Some(v) = limits.get(written) {
        return Some(*v);
    }
    let words = split(written, ' ');
    let first = crate::text::chars_of(words[0].as_str());
    let mut leading = String::new();
    let mut i: usize = 0;
    assert(split_on(written@, ' ')[0] == words@[0]@);
    assert(leading@ =~= alphanumerics(first@.take(0)));
    while i < first.len()
        invariant
            i <= first@.len(),
            leading@ == alphanumerics(first@.take(i as int)),
        decreases first@.len() - i,
    {
        assert(first@.take(i + 1).drop_last() =~= first@.take(i as int));
        if is_alphanumeric(first[i]) {
            leading.push(first[i]);
        }
        i = i + 1;
    }
    assert(first@.take(first@.len() as int) =~= first@);
    match limits.get(leading.as_str()) {
        Some(v) => Some(*v),
        None => None,
    }
}

// ── The summary ─────────────────────────────────────────────────────────

/// The condition of one cell, as far as its readings can say.
#[derive(Debug)]
pub struct Summary {
    pub retention: Option<i64>,
    pub health_limit: Option<i64>,
    pub health_low: bool,
    pub ir_limit: Option<i64>,
    pub ir_over_limit: bool,
    pub ir_unchecked: bool,
    pub unavailable: String,
    pub latest: Option<Measurement>,
    pub setup: String,
    pub series: Vec<Measurement>,
    pub others: Vec<Measurement>,
    pub newer: Vec<Measurement>,
    pub ir_first: Option<Measurement>,
    pub ir_latest: Option<Measurement>,
    pub ir_change: Option<i64>,
    pub chart: Option<Chart>,
}

/// A reading newer than the given one.
pub struct Newer {
    pub measured_at: String,
    pub id: i64,
}

impl Test<Measurement> for Newer {
    open spec fn holds(&self, m: Measurement) -> bool {
        !dated_le(m.measured_at@, m.id, self.measured_at@, self.id)
    }

    fn check(&self, m: &Measurement) -> (r: bool) {
        !dated_before(m.measured_at.as_str(), m.id, self.measured_at.as_str(), self.id)
    }
}

pub open spec fn first_of(s: Seq<Measurement>) -> Option<Measurement> {
    if s.len() == 0 {
        None
    } else {
        Some(s[0])
    }
}

pub open spec fn last_of(s: Seq<Measurement>) -> Option<Measurement> {
    if s.len() == 0 {
        None
    } else {
        Some(s.last())
    }
}

/// The capacity readings of the dominant setup, oldest first.
pub open spec fn series_of(ms: Seq<Measurement>) -> Seq<Measurement> {
    let found = analysed(ms);
    match dominant(found) {
        Some(s) => kept(OfSetup { setup: s }, found),
        None => Seq::empty(),
    }
}

/// The capacity readings of every other setup, oldest first.
pub open spec fn others_of(ms: Seq<Measurement>) -> Seq<Measurement> {
    let found = analysed(ms);
    match dominant(found) {
        Some(s) => kept(NotOfSetup { setup: s }, found),
        None => Seq::empty(),
    }
}

/// The readings of other setups that are newer than the latest of the series.
pub open spec fn newer_of(ms: Seq<Measurement>) -> Seq<Measurement> {
    match last_of(series_of(ms)) {
        Some(l) => kept(Newer { measured_at: l.measured_at, id: l.id }, others_of(ms)),
        None => Seq::empty(),
    }
}

/// The latest capacity of the series as a percentage of the nominal one, to
/// the nearest whole number, a tie to the even one.
pub open spec fn retention_of(nominal_mah: Option<i64>, ms: Seq<Measurement>) -> Option<i64> {
    let nominal = or_zero(nominal_mah) as int;
    match last_of(series_of(ms)) {
        Some(l) if nominal != 0 => {
            let capacity = or_zero(l.capacity_mah) as int;
            Some(
                clamped(
                    if nominal > 0 {
                        half_even(100 * capacity, nominal)
                    } else {
                        half_even(-100 * capacity, -nominal)
                    },
                ),
            )
        },
        _ => None,
    }
}

pub const NO_ANALYSIS: &'static str =
    "No analysis has been recorded yet. Health is the measured capacity as a percentage of the nominal one, so it needs a discharge measurement to exist.";

pub const NO_NOMINAL: &'static str =
    "This battery has no nominal capacity recorded, so there is nothing to measure the analysis against. Add one under Details.";

/// Why there is no health to show, if there is none.
pub open spec fn unavailable_text(nominal_mah: Option<i64>, ms: Seq<Measurement>) -> Seq<char> {
    if last_of(series_of(ms)) is None {
        NO_ANALYSIS@
    } else if or_zero(nominal_mah) == 0 {
        NO_NOMINAL@
    } else {
        Seq::empty()
    }
}

/// How far the resistance has moved since the first reading, where there is
/// more than one.
pub open spec fn resistance_change(ms: Seq<Measurement>) -> Option<i64> {
    let found = with_resistance(ms);
    if found.len() > 0 && found[0].id != found.last().id {
        Some(clamped(or_zero(found.last().ir_mohm) - or_zero(found[0].ir_mohm)))
    } else {
        None
    }
}

impl Summary {
    /// What every field of the summary of a cell and its readings holds.
    pub open spec fn describes(
        &self,
        battery: Battery,
        ms: Seq<Measurement>,
        limits: Dict<i64>,
        health_limit: Option<i64>,
        names: Map<i64, String>,
    ) -> bool {
        let limit = limit_of(battery.cell_type@, limits);
        let resistances = with_resistance(ms);
        &&& self.retention == retention_of(battery.nominal_mah, ms)
        &&& self.health_limit == health_limit
        &&& self.health_low == (or_zero(health_limit) != 0 && (self.retention matches Some(r) && r
            < or_zero(health_limit)))
        &&& self.ir_limit == limit
        &&& self.ir_over_limit == (resistances.len() > 0 && (limit matches Some(l) && or_zero(
            resistances.last().ir_mohm,
        ) >= l))
        &&& self.ir_unchecked == (resistances.len() > 0 && limit is None)
        &&& self.unavailable@ == unavailable_text(battery.nominal_mah, ms)
        &&& self.latest == last_of(series_of(ms))
        &&& self.setup@ == (match dominant(analysed(ms)) {
            Some(s) => setup_text(s, names),
            None => Seq::empty(),
        })
        &&& self.series@ == series_of(ms)
        &&& self.others@ == others_of(ms)
        &&& self.newer@ == newer_of(ms)
        &&& self.ir_first == first_of(resistances)
        &&& self.ir_latest == last_of(resistances)
        &&& self.ir_change == resistance_change(ms)
        &&& match self.chart {
            Some(c) => chart_of(battery.nominal_mah, ms) == Some(c@),
            None => chart_of(battery.nominal_mah, ms) is None,
        }
    }
}

fn last_in(v: &Vec<Measurement>) -> (r: Option<Measurement>)
    ensures
        r == last_of(v@),
{
    if v.len() == 0 {
        None
    } else {
        Some(v[v.len() - 1].clone())
    }
}

fn first_in(v: &Vec<Measurement>) -> (r: Option<Measurement>)
    ensures
        r == first_of(v@),
{
    if v.len() == 0 {
        None
    } else {
        Some(v[0].clone())
    }
}

/// The condition of one cell. Health is capacity retention only: the latest
/// capacity of the dominant series as a percentage of the nominal one. It is
/// never blended with resistance, which is reported on its own against the
/// cell's first reading.
pub fn summarise(
    battery: &Battery,
    measurements: &Vec<Measurement>,
    limits: &Dict<i64>,
    health_limit: Option<i64>,
    instrument_names: &HashMap<i64, String>,
) -> (r: Summary)
    ensures
        r.describes(*battery, measurements@, *limits, health_limit, instrument_names@),
{
    let found = analyses(measurements);
    let mut setup = String::new();
    let mut series: Vec<Measurement> = Vec::new();
    let mut others: Vec<Measurement> = Vec::new();
    if let Some(s) = dominant_setup(&found) {
        setup = describe_setup(s, instrument_names);
        series = select(&OfSetup { setup: s }, &found);
        others = select(&NotOfSetup { setup: s }, &found);
    }
    assert(series@ =~= series_of(measurements@));
    assert(others@ =~= others_of(measurements@));
    let latest = last_in(&series);
    let mut newer: Vec<Measurement> = Vec::new();
    let mut retention: Option<i64> = None;
    let nominal = value_or_zero(battery.nominal_mah);
    let mut unavailable = NO_ANALYSIS.to_string();
    if let Some(l) = &latest {
        newer = select(&Newer { measured_at: l.measured_at.clone(), id: l.id }, &others);
        if nominal == 0 {
            unavailable = NO_NOMINAL.to_string();
        } else {
            unavailable = String::new();
            let capacity: i128 = value_or_zero(l.capacity_mah) as i128;
            retention = Some(
                clamp_i64(
                    if nominal > 0 {
                        round_half_even(100 * capacity, nominal as i128)
                    } else {
                        round_half_even(-100 * capacity, 0 - nominal as i128)
                    },
                ),
            );
        }
    }
    assert(newer@ =~= newer_of(measurements@));
    let resistances = readings_with_ir(measurements);
    let ir_first = first_in(&resistances);
    let ir_latest = last_in(&resistances);
    let mut ir_change: Option<i64> = None;
    let limit = limit_for(battery, limits);
    let mut over = false;
    let mut unchecked = false;
    if resistances.len() > 0 {
        let first = &resistances[0];
        let last = &resistances[resistances.len() - 1];
        let now = value_or_zero(last.ir_mohm);
        if first.id != last.id {
            ir_change = Some(clamp_i64(now as i128 - value_or_zero(first.ir_mohm) as i128));
        }
        match limit {
            Some(l) => {
                over = now >= l;
            },
            None => {
                unchecked = true;
            },
        }
    }
    let threshold = value_or_zero(health_limit);
    let health_low = match retention {
        Some(p) => threshold != 0 && p < threshold,
        None => false,
    };
    Summary {
        retention,
        health_limit,
        health_low,
        ir_limit: limit,
        ir_over_limit: over,
        ir_unchecked: unchecked,
        unavailable,
        latest,
        setup,
        series,
        others,
        newer,
        ir_first,
        ir_latest,
        ir_change,
        chart: chart(battery, measurements),
    }
}

/// Two readings that differ in resistance alone.
pub open spec fn but_for_resistance(a: Measurement, b: Measurement) -> bool {
    b == (Measurement { ir_mohm: b.ir_mohm, ..a })
}

/// Two lists of readings that differ in resistance alone.
pub open spec fn alike(a: Seq<Measurement>, b: Seq<Measurement>) -> bool {
    a.len() == b.len() && forall|i: int|
        0 <= i < a.len() ==> but_for_resistance(a[i], #[trigger] b[i])
}

/// Health says nothing of resistance: two lists of readings that differ in
/// their resistances alone give the same retention, the same setup and the same
/// word on why there is none, and the same readings as the latest, in the
/// series, among the others and among the newer ones.
pub proof fn retention_ignores_resistance(
    nominal_mah: Option<i64>,
    a: Seq<Measurement>,
    b: Seq<Measurement>,
)
    requires
        alike(a, b),
    ensures
        retention_of(nominal_mah, a) == retention_of(nominal_mah, b),
        unavailable_text(nominal_mah, a) == unavailable_text(nominal_mah, b),
        dominant(analysed(a)) == dominant(analysed(b)),
        match (last_of(series_of(a)), last_of(series_of(b))) {
            (Some(x), Some(y)) => but_for_resistance(x, y),
            (None, None) => true,
            _ => false,
        },
        alike(series_of(a), series_of(b)),
        alike(others_of(a), others_of(b)),
        alike(newer_of(a), newer_of(b)),
{
    let fa = analysed(a);
    let fb = analysed(b);
    lemma_alike_kept(Analysed, a, b);
    lemma_alike_sorted(kept(Analysed, a), kept(Analysed, b));
    assert(alike(fa, fb));
    if fa.len() > 0 {
        lemma_alike_dominant(fa, fb, fa.len() as int);
        let s = dominant(fa)->0;
        lemma_alike_kept(OfSetup { setup: s }, fa, fb);
        lemma_alike_kept(NotOfSetup { setup: s }, fa, fb);
        let ga = series_of(a);
        let gb = series_of(b);
        if ga.len() > 0 {
            assert(ga.last() == ga[ga.len() - 1]);
            assert(gb[gb.len() - 1] == gb.last());
            let l = ga.last();
            let p = Newer { measured_at: l.measured_at, id: l.id };
            lemma_alike_kept(p, others_of(a), others_of(b));
        }
    }
}

proof fn lemma_alike_ends(a: Seq<Measurement>, b: Seq<Measurement>)
    requires
        alike(a, b),
        a.len() > 0,
    ensures
        alike(a.drop_last(), b.drop_last()),
        but_for_resistance(a.last(), b.last()),
{
    assert(b[b.len() - 1] == b.last() && a[a.len() - 1] == a.last());
    assert forall|i: int| 0 <= i < a.len() - 1 implies but_for_resistance(
        a.drop_last()[i],
        #[trigger] b.drop_last()[i],
    ) by {
        assert(but_for_resistance(a[i], b[i]));
    }
}

/// A test that does not look at the resistance picks the same readings.
proof fn lemma_alike_kept<P: Test<Measurement>>(p: P, a: Seq<Measurement>, b: Seq<Measurement>)
    requires
        alike(a, b),
        forall|x: Measurement, y: Measurement|
            but_for_resistance(x, y) ==> #[trigger] p.holds(x) == #[trigger] p.holds(y),
    ensures
        alike(kept(p, a), kept(p, b)),
    decreases a.len(),
{
    if a.len() > 0 {
        lemma_alike_ends(a, b);
        lemma_alike_kept(p, a.drop_last(), b.drop_last());
        assert(p.holds(a.last()) == p.holds(b.last()));
    }
}

proof fn lemma_alike_inserted(
    a: Seq<Measurement>,
    b: Seq<Measurement>,
    x: Measurement,
    y: Measurement,
)
    requires
        alike(a, b),
        but_for_resistance(x, y),
    ensures
        alike(inserted(ByDate, a, x), inserted(ByDate, b, y)),
    decreases a.len(),
{
    if a.len() > 0 {
        lemma_alike_ends(a, b);
        lemma_alike_inserted(a.drop_last(), b.drop_last(), x, y);
    }
}

proof fn lemma_alike_sorted(a: Seq<Measurement>, b: Seq<Measurement>)
    requires
        alike(a, b),
    ensures
        alike(sorted(ByDate, a), sorted(ByDate, b)),
    decreases a.len(),
{
    if a.len() > 0 {
        lemma_alike_ends(a, b);
        lemma_alike_sorted(a.drop_last(), b.drop_last());
        lemma_alike_inserted(
            sorted(ByDate, a.drop_last()),
            sorted(ByDate, b.drop_last()),
            a.last(),
            b.last(),
        );
    }
}

proof fn lemma_alike_dominant(a: Seq<Measurement>, b: Seq<Measurement>, n: int)
    requires
        alike(a, b),
        1 <= n <= a.len(),
    ensures
        dominant_among(a, n) == dominant_among(b, n),
    decreases n,
{
    assert(but_for_resistance(a[n - 1], b[n - 1]));
    assert(but_for_resistance(a[0], b[0]));
    if n > 1 {
        lemma_alike_dominant(a, b, n - 1);
        let best = dominant_among(a, n - 1);
        let s = setup(a[n - 1]);
        lemma_alike_kept(OfSetup { setup: s }, a, b);
        lemma_alike_kept(OfSetup { setup: best }, a, b);
        lemma_dominant_among(a, n - 1);
        let j = choose|j: int| 0 <= j < n - 1 && setup(#[trigger] a[j]) == best;
        let p = OfSetup { setup: s };
        let q = OfSetup { setup: best };
        lemma_kept_nonempty(p, a, n - 1);
        lemma_kept_nonempty(q, a, j);
        let ga = group(a, s);
        let gb = group(b, s);
        let ha = group(a, best);
        let hb = group(b, best);
        assert(gb[gb.len() - 1] == gb.last() && ga[ga.len() - 1] == ga.last());
        assert(hb[hb.len() - 1] == hb.last() && ha[ha.len() - 1] == ha.last());
    }
}

/// Every capacity reading is either in the series or among the others, and
/// none is in both.
pub proof fn series_and_others_partition(ms: Seq<Measurement>)
    ensures
        series_of(ms).len() + others_of(ms).len() == analysed(ms).len(),
        forall|m: Measurement| #[trigger]
            analysed(ms).contains(m) <==> (series_of(ms).contains(m) || others_of(ms).contains(m)),
        forall|m: Measurement| #[trigger]
            series_of(ms).contains(m) ==> !others_of(ms).contains(m),
{
    let found = analysed(ms);
    if found.len() > 0 {
        let s = dominant(found)->0;
        kept_members(OfSetup { setup: s }, found);
        kept_members(NotOfSetup { setup: s }, found);
        lemma_parts(found, s);
    }
}

proof fn lemma_parts(found: Seq<Measurement>, s: Setup)
    ensures
        kept(OfSetup { setup: s }, found).len() + kept(NotOfSetup { setup: s }, found).len()
            == found.len(),
    decreases found.len(),
{
    if found.len() > 0 {
        lemma_parts(found.drop_last(), s);
    }
}

/// A cell with a capacity reading and a nominal capacity has a health, and no
/// other cell has one.
pub proof fn retention_is_owed(nominal_mah: Option<i64>, ms: Seq<Measurement>)
    ensures
        retention_of(nominal_mah, ms) is Some <==> (or_zero(nominal_mah) != 0 && kept(
            Analysed,
            ms,
        ).len() > 0),
{
    let found = analysed(ms);
    sorted_keeps_all(ByDate, kept(Analysed, ms));
    if found.len() > 0 {
        dominant_has_most_readings(found);
        let j = choose|j: int|
            0 <= j < found.len() && setup(#[trigger] found[j]) == dominant(found)->0;
        lemma_kept_nonempty(OfSetup { setup: dominant(found)->0 }, found, j);
    }
}

} // verus!
