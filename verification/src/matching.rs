//! Suggesting which pooled batteries to hand out for a request.
//!
//! The caller loads the pool's batteries and their readings; nothing here
//! touches what is stored.

use std::collections::HashMap;

use vstd::prelude::*;
use vstd::string::*;
use crate::health::{analysed, analyses, or_zero, readings_with_ir, with_resistance};
use crate::num::floor_div;
use crate::order::{
    sort, sorted, sorted_in_order, sorted_keeps_all, sorted_same_members, Ascending, Order,
};
use crate::rows::{Battery, Measurement};
use crate::select::{kept, kept_members, select, Duplicate, Test};
use crate::text::{int_text, push_int, same, same_ignoring_ascii_case, same_ignoring_case};

verus! {

/// What a device asks of its cells.
#[derive(Debug, Clone, Copy, PartialEq, Eq, Structural)]
pub enum Draw {
    /// A low-current device: a weak cell is still safe to use, so it is used
    /// up first rather than left in the pool.
    Low,
    /// A high-current device: a weak cell can sag or fail under load, so the
    /// strongest cells are picked instead.
    High,
}

impl Draw {
    pub open spec fn text(self) -> Seq<char> {
        match self {
            Draw::Low => "low"@,
            Draw::High => "high"@,
        }
    }

    pub open spec fn parsed(text: Seq<char>) -> Option<Draw> {
        if text == "low"@ {
            Some(Draw::Low)
        } else if text == "high"@ {
            Some(Draw::High)
        } else {
            None
        }
    }

    pub fn parse(text: &str) -> (r: Option<Draw>)
        ensures
            r == Draw::parsed(text@),
    {
        if same(text, "low") {
            Some(Draw::Low)
        } else if same(text, "high") {
            Some(Draw::High)
        } else {
            None
        }
    }

    pub fn as_str(self) -> (r: &'static str)
        ensures
            r@ == self.text(),
    {
        match self {
            Draw::Low => "low",
            Draw::High => "high",
        }
    }
}

/// A draw reads back from its text.
pub proof fn draw_reads_back(draw: Draw)
    ensures
        Draw::parsed(draw.text()) == Some(draw),
{
    reveal_strlit("low");
    reveal_strlit("high");
    assert("low"@.len() != "high"@.len());
}

/// A pool battery with the numbers that it is ranked on.
#[derive(Debug)]
pub struct Candidate {
    pub battery: Battery,
    pub capacity_mah: i64,
    pub ir_mohm: i64,
    /// Whether `ir_mohm` is no reading, just the configured default for a cell
    /// that has a capacity reading but no resistance one yet.
    pub ir_assumed: bool,
}

impl Clone for Candidate {
    fn clone(&self) -> (r: Self)
        ensures
            r == *self,
    {
        Candidate {
            battery: self.battery.clone(),
            capacity_mah: self.capacity_mah,
            ir_mohm: self.ir_mohm,
            ir_assumed: self.ir_assumed,
        }
    }
}

impl Duplicate for Candidate {
    fn duplicate(&self) -> (r: Self) {
        self.clone()
    }
}

// ── The pool ────────────────────────────────────────────────────────────

/// The readings of one battery, none where it has none.
pub open spec fn readings_of(
    measurements_by_battery: Map<i64, Vec<Measurement>>,
    id: i64,
) -> Seq<Measurement> {
    if measurements_by_battery.dom().contains(id) {
        measurements_by_battery[id]@
    } else {
        Seq::empty()
    }
}

/// A battery as a candidate: one that is not deleted, sits in the pool and has
/// a capacity reading. Its capacity and resistance are the latest ones read,
/// the resistance the assumed one where none was.
pub open spec fn candidate_of(
    battery: Battery,
    ms: Seq<Measurement>,
    pool_location: Seq<char>,
    default_ir_mohm: i64,
) -> Option<Candidate> {
    let found = analysed(ms);
    let resistances = with_resistance(ms);
    if battery.deleted_at is Some || !same_ignoring_case(battery.location@, pool_location)
        || found.len() == 0 || found.last().capacity_mah is None {
        None
    } else {
        Some(
            Candidate {
                battery,
                capacity_mah: found.last().capacity_mah->0,
                ir_mohm: if resistances.len() > 0 {
                    or_zero(resistances.last().ir_mohm)
                } else {
                    default_ir_mohm
                },
                ir_assumed: resistances.len() == 0,
            },
        )
    }
}

/// The candidates among `batteries`, in their order.
pub open spec fn pool(
    batteries: Seq<Battery>,
    measurements_by_battery: Map<i64, Vec<Measurement>>,
    pool_location: Seq<char>,
    default_ir_mohm: i64,
) -> Seq<Candidate>
    decreases batteries.len(),
{
    if batteries.len() == 0 {
        Seq::empty()
    } else {
        let before = pool(
            batteries.drop_last(),
            measurements_by_battery,
            pool_location,
            default_ir_mohm,
        );
        let b = batteries.last();
        match candidate_of(
            b,
            readings_of(measurements_by_battery, b.id),
            pool_location,
            default_ir_mohm,
        ) {
            Some(c) => before.push(c),
            None => before,
        }
    }
}

proof fn lemma_last_resistance(ms: Seq<Measurement>)
    requires
        with_resistance(ms).len() > 0,
    ensures
        with_resistance(ms).last().ir_mohm is Some,
{
    let found = kept(crate::health::WithResistance, ms);
    sorted_same_members(crate::health::ByDate, found);
    kept_members(crate::health::WithResistance, ms);
    let last = with_resistance(ms).last();
    assert(with_resistance(ms).contains(last));
    assert(found.contains(last));
}

fn candidate(
    battery: &Battery,
    measurements: &Vec<Measurement>,
    pool_location: &str,
    default_ir_mohm: i64,
) -> (r: Option<Candidate>)
    ensures
        r == candidate_of(*battery, measurements@, pool_location@, default_ir_mohm),
{
    if battery.deleted_at.is_some() || !same_ignoring_ascii_case(
        battery.location.as_str(),
        pool_location,
    ) {
        return None;
    }
    let found = analyses(measurements);
    if found.len() == 0 {
        return None;
    }
    let capacity_mah = match found[found.len() - 1].capacity_mah {
        Some(v) => v,
        None => return None,
    };
    let resistances = readings_with_ir(measurements);
    let mut ir_mohm = default_ir_mohm;
    let mut ir_assumed = true;
    if resistances.len() > 0 {
        proof {
            lemma_last_resistance(measurements@);
        }
        if let Some(v) = resistances[resistances.len() - 1].ir_mohm {
            ir_mohm = v;
            ir_assumed = false;
        }
    }
    Some(Candidate { battery: battery.clone(), capacity_mah, ir_mohm, ir_assumed })
}

/// The pool: active batteries in `pool_location` (whatever its case) that have
/// a capacity reading. A battery without one is left out rather than ranked:
/// it needs to be measured first, not guessed at.
pub fn eligible_pool(
    batteries: &Vec<Battery>,
    measurements_by_battery: &HashMap<i64, Vec<Measurement>>,
    pool_location: &str,
    default_ir_mohm: i64,
) -> (r: Vec<Candidate>)
    ensures
        r@ == pool(batteries@, measurements_by_battery@, pool_location@, default_ir_mohm),
{
    broadcast use vstd::std_specs::hash::group_hash_axioms;

    let empty: Vec<Measurement> = Vec::new();
    let mut out: Vec<Candidate> = Vec::new();
    let mut i: usize = 0;
    assert(out@ =~= pool(
        batteries@.take(0),
        measurements_by_battery@,
        pool_location@,
        default_ir_mohm,
    ));
    while i < batteries.len()
        invariant
            i <= batteries@.len(),
            empty@ == Seq::<Measurement>::empty(),
            out@ == pool(
                batteries@.take(i as int),
                measurements_by_battery@,
                pool_location@,
                default_ir_mohm,
            ),
        decreases batteries@.len() - i,
    {
        assert(batteries@.take(i + 1).drop_last() =~= batteries@.take(i as int));
        let b = &batteries[i];
        let ms = match measurements_by_battery.get(&b.id) {
            Some(v) => v,
            None => &empty,
        };
        assert(ms@ == readings_of(measurements_by_battery@, b.id));
        if let Some(c) = candidate(b, ms, pool_location, default_ir_mohm) {
            out.push(c);
        }
        i = i + 1;
    }
    assert(batteries@.take(batteries@.len() as int) =~= batteries@);
    out
}

// ── Strength ────────────────────────────────────────────────────────────

/// The nominal capacity that retention is taken against, one where there is
/// none (the capacity itself then counts).
pub open spec fn share_base(nominal_mah: Option<i64>) -> int {
    if or_zero(nominal_mah) == 0 {
        1
    } else if or_zero(nominal_mah) > 0 {
        or_zero(nominal_mah) as int
    } else {
        -or_zero(nominal_mah)
    }
}

/// The strength of a cell is `strength_num / (20 * share_base)`: capacity
/// retention in percent less a twentieth of the resistance. Retention (against
/// the cell's own nominal capacity, so cells of different ones stay
/// comparable) dominates; resistance only ever breaks a close call.
pub open spec fn strength_num(c: Candidate) -> int {
    let n = or_zero(c.battery.nominal_mah) as int;
    if n > 0 {
        2000 * c.capacity_mah - n * c.ir_mohm
    } else if n < 0 {
        n * c.ir_mohm - 2000 * c.capacity_mah
    } else {
        20 * c.capacity_mah - c.ir_mohm
    }
}

/// The sum of the numerators of some cells' strengths.
pub open spec fn total_num(s: Seq<Candidate>) -> int
    decreases s.len(),
{
    if s.len() == 0 {
        0
    } else {
        total_num(s.drop_last()) + strength_num(s.last())
    }
}

/// A strength, or a sum of strengths with the same base: twentieths
/// `high * 2^64 + low`, and twenty times `rem / base` of one.
struct Strength {
    high: i128,
    low: i128,
    rem: i128,
    base: i128,
}

impl Strength {
    spec fn twentieths(&self) -> int {
        self.high * 0x1_0000_0000_0000_0000 + self.low
    }

    spec fn num(&self) -> int {
        self.twentieths() * self.base + 20 * self.rem
    }

    spec fn wf(&self) -> bool {
        &&& 0 <= self.low < 0x1_0000_0000_0000_0000
        &&& 0 <= self.rem < self.base <= 0x8000_0000_0000_0000
    }
}

fn strength_of(c: &Candidate) -> (r: Strength)
    ensures
        r.wf(),
        r.base == share_base(c.battery.nominal_mah),
        r.num() == strength_num(*c),
        -0x1_0000 < r.high < 0x1_0000,
{
    let n: i128 = crate::health::value_or_zero(c.battery.nominal_mah) as i128;
    let cap: i128 = c.capacity_mah as i128;
    let ir: i128 = c.ir_mohm as i128;
    let mut base: i128 = 1;
    let mut share: i128 = cap;
    if n > 0 {
        base = n;
        share = 100 * cap;
    } else if n < 0 {
        base = 0 - n;
        share = 100 * (0 - cap);
    }
    let (whole, rem) = floor_div(share, base);
    proof {
        vstd::arithmetic::div_mod::lemma_fundamental_div_mod(share as int, base as int);
        assert(-100 * 0x8000_0000_0000_0000 <= whole) by (nonlinear_arith)
            requires
                share == base * whole + rem,
                share >= -100 * 0x8000_0000_0000_0000,
                0 <= rem < base,
                base >= 1,
        ;
    }
    let twentieths: i128 = 20 * whole - ir;
    let (high, low) = floor_div(twentieths, 0x1_0000_0000_0000_0000);
    let out = Strength { high, low, rem, base };
    proof {
        vstd::arithmetic::div_mod::lemma_fundamental_div_mod(
            twentieths as int,
            0x1_0000_0000_0000_0000,
        );
        assert(out.twentieths() == twentieths);
        assert(twentieths * base + 20 * rem == 20 * share - base * ir) by (nonlinear_arith)
            requires
                twentieths == 20 * whole - ir,
                share == base * whole + rem,
        ;
        assert(base * ir == if n > 0 {
            n * ir
        } else if n < 0 {
            -(n * ir)
        } else {
            ir as int
        }) by (nonlinear_arith)
            requires
                n > 0 ==> base == n,
                n < 0 ==> base == -n,
                n == 0 ==> base == 1,
        ;
    }
    out
}

/// Adds the strength of one more cell of the same base.
fn plus(a: Strength, b: Strength) -> (r: Strength)
    requires
        a.wf(),
        b.wf(),
        a.base == b.base,
        -0x1_0000 < b.high < 0x1_0000,
        i128::MIN / 2 < a.high < i128::MAX / 2,
    ensures
        r.wf(),
        r.base == a.base,
        r.num() == a.num() + b.num(),
        a.high - 0x1_0000 <= r.high <= a.high + 0x1_0002,
{
    let mut high: i128 = a.high + b.high;
    let mut low: i128 = a.low + b.low;
    let mut rem: i128 = a.rem + b.rem;
    if rem >= a.base {
        rem = rem - a.base;
        low = low + 20;
    }
    if low >= 0x1_0000_0000_0000_0000 {
        low = low - 0x1_0000_0000_0000_0000;
        high = high + 1;
    }
    if low >= 0x1_0000_0000_0000_0000 {
        low = low - 0x1_0000_0000_0000_0000;
        high = high + 1;
    }
    let out = Strength { high, low, rem, base: a.base };
    proof {
        let carried: int = if a.rem + b.rem >= a.base {
            1
        } else {
            0
        };
        assert(out.twentieths() == a.twentieths() + b.twentieths() + 20 * carried);
        assert(out.num() == a.num() + b.num()) by (nonlinear_arith)
            requires
                out.num() == out.twentieths() * a.base + 20 * out.rem,
                a.num() == a.twentieths() * a.base + 20 * a.rem,
                b.num() == b.twentieths() * a.base + 20 * b.rem,
                out.twentieths() == a.twentieths() + b.twentieths() + 20 * carried,
                out.rem == a.rem + b.rem - carried * a.base,
        ;
    }
    out
}

/// Twenty times `p / q`, as a whole number and a remainder.
fn twenty_parts(p: i128, q: i128) -> (r: (i128, i128))
    requires
        0 < q <= 0x4000_0000_0000_0000_0000_0000_0000_0000,
        -q < p < q,
    ensures
        20 * p == r.0 * q + r.1,
        0 <= r.1 < q,
        -20 <= r.0 <= 20,
{
    let mut whole: i128 = 0;
    let mut rem: i128 = 0;
    let mut i: u8 = 0;
    assert(0 * q == 0) by (nonlinear_arith);
    while i < 20
        invariant
            i <= 20,
            0 < q <= 0x4000_0000_0000_0000_0000_0000_0000_0000,
            -q < p < q,
            0 <= rem < q,
            -(i as int) <= whole <= i,
            i * p == whole * q + rem,
        decreases 20 - i,
    {
        let ghost w = whole;
        let ghost m = rem;
        rem = rem + p;
        if rem >= q {
            rem = rem - q;
            whole = whole + 1;
        } else if rem < 0 {
            rem = rem + q;
            whole = whole - 1;
        }
        assert((whole - w) * q == m + p - rem) by (nonlinear_arith)
            requires
                (whole == w && rem == m + p) || (whole == w + 1 && rem == m + p - q) || (whole == w
                    - 1 && rem == m + p + q),
        ;
        assert((i + 1) * p == whole * q + rem) by (nonlinear_arith)
            requires
                i * p == w * q + m,
                rem == m + p - (whole - w) * q,
        ;
        i = i + 1;
    }
    (whole, rem)
}

/// Whether `a` is less than `b`.
fn less(a: &Strength, b: &Strength) -> (r: bool)
    requires
        a.wf(),
        b.wf(),
        i128::MIN / 2 < a.high < i128::MAX / 2,
        i128::MIN / 2 < b.high < i128::MAX / 2,
    ensures
        r == (a.num() * b.base < b.num() * a.base),
{
    let ghost lead = a.twentieths() - b.twentieths();
    let ghost both = a.base * b.base;
    assert(a.rem * b.base <= 0x4000_0000_0000_0000_0000_0000_0000_0000 && b.rem * a.base
        <= 0x4000_0000_0000_0000_0000_0000_0000_0000 && 0 <= a.rem * b.base && 0 <= b.rem * a.base
        && 0 < a.base * b.base <= 0x4000_0000_0000_0000_0000_0000_0000_0000 && a.rem * b.base
        < a.base * b.base && b.rem * a.base < a.base * b.base) by (nonlinear_arith)
        requires
            0 <= a.rem < a.base <= 0x8000_0000_0000_0000,
            0 <= b.rem < b.base <= 0x8000_0000_0000_0000,
    ;
    let p: i128 = a.rem * b.base - b.rem * a.base;
    let q: i128 = a.base * b.base;
    proof {
        assert(a.num() * b.base - b.num() * a.base == lead * q + 20 * p) by (nonlinear_arith)
            requires
                a.num() == a.twentieths() * a.base + 20 * a.rem,
                b.num() == b.twentieths() * b.base + 20 * b.rem,
                lead == a.twentieths() - b.twentieths(),
                p == a.rem * b.base - b.rem * a.base,
                q == a.base * b.base,
        ;
    }
    let dh: i128 = a.high - b.high;
    let dl: i128 = a.low - b.low;
    assert(lead == dh * 0x1_0000_0000_0000_0000 + dl);
    if dh >= 2 {
        assert(lead * q + 20 * p > 0) by (nonlinear_arith)
            requires
                lead >= 20,
                q > 0,
                -q < p,
        ;
        return false;
    }
    if dh <= -2 {
        assert(lead * q + 20 * p < 0) by (nonlinear_arith)
            requires
                lead <= -20,
                q > 0,
                p < q,
        ;
        return true;
    }
    let k: i128 = dh * 0x1_0000_0000_0000_0000 + dl;
    let (whole, rem) = twenty_parts(p, q);
    proof {
        assert(lead * q + 20 * p == (k + whole) * q + rem) by (nonlinear_arith)
            requires
                lead == k,
                20 * p == whole * q + rem,
        ;
        assert(((k + whole) * q + rem < 0) == (k + whole < 0)) by (nonlinear_arith)
            requires
                0 <= rem < q,
        ;
    }
    k + whole < 0
}

/// Whether `a` is no stronger than `b`.
pub open spec fn no_stronger(a: Candidate, b: Candidate) -> bool {
    strength_num(a) * share_base(b.battery.nominal_mah) <= strength_num(b) * share_base(
        a.battery.nominal_mah,
    )
}

/// Candidates in the order in which a draw takes them: the weakest first for a
/// low one, the strongest first for a high one.
pub struct ByStrength {
    pub draw: Draw,
}

pub proof fn lemma_fractions_trans(a: int, p: int, b: int, q: int, c: int, r: int)
    requires
        p > 0,
        q > 0,
        r > 0,
        a * q <= b * p,
        b * r <= c * q,
    ensures
        a * r <= c * p,
{
    assert((a * r) * q <= (c * p) * q) by (nonlinear_arith)
        requires
            p > 0,
            r > 0,
            a * q <= b * p,
            b * r <= c * q,
    ;
    assert(a * r <= c * p) by (nonlinear_arith)
        requires
            (a * r) * q <= (c * p) * q,
            q > 0,
    ;
}

impl Order<Candidate> for ByStrength {
    open spec fn le(&self, a: Candidate, b: Candidate) -> bool {
        match self.draw {
            Draw::Low => no_stronger(a, b),
            Draw::High => no_stronger(b, a),
        }
    }

    proof fn total(&self, a: Candidate, b: Candidate) {
    }

    proof fn trans(&self, a: Candidate, b: Candidate, c: Candidate) {
        let p = share_base(a.battery.nominal_mah);
        let q = share_base(b.battery.nominal_mah);
        let r = share_base(c.battery.nominal_mah);
        match self.draw {
            Draw::Low => {
                lemma_fractions_trans(strength_num(a), p, strength_num(b), q, strength_num(c), r);
            },
            Draw::High => {
                lemma_fractions_trans(strength_num(c), r, strength_num(b), q, strength_num(a), p);
            },
        }
    }

    fn is_le(&self, a: &Candidate, b: &Candidate) -> (r: bool) {
        let x = strength_of(a);
        let y = strength_of(b);
        match self.draw {
            Draw::Low => !less(&y, &x),
            Draw::High => !less(&x, &y),
        }
    }
}

/// `group` in the order in which `draw` takes its cells.
pub open spec fn ranked(group: Seq<Candidate>, draw: Draw) -> Seq<Candidate> {
    sorted(ByStrength { draw }, group)
}

fn rank(group: Vec<Candidate>, draw: Draw) -> (r: Vec<Candidate>)
    ensures
        r@ == ranked(group@, draw),
{
    sort(&ByStrength { draw }, group)
}

// ── Buckets ─────────────────────────────────────────────────────────────

/// A cell of the type that was asked for, whatever its case.
pub struct OfType {
    pub requested: String,
}

impl Test<Candidate> for OfType {
    open spec fn holds(&self, c: Candidate) -> bool {
        same_ignoring_case(c.battery.cell_type@, self.requested@)
    }

    fn check(&self, c: &Candidate) -> (r: bool) {
        same_ignoring_ascii_case(c.battery.cell_type.as_str(), self.requested.as_str())
    }
}

pub open spec fn of_type(c: Candidate, requested: Seq<char>) -> bool {
    same_ignoring_case(c.battery.cell_type@, requested)
}

/// The candidates of one type, in their order.
pub open spec fn type_matches(candidates: Seq<Candidate>, requested: Seq<char>) -> Seq<Candidate>
    decreases candidates.len(),
{
    if candidates.len() == 0 {
        candidates
    } else if of_type(candidates.last(), requested) {
        type_matches(candidates.drop_last(), requested).push(candidates.last())
    } else {
        type_matches(candidates.drop_last(), requested)
    }
}

proof fn lemma_type_matches(candidates: Seq<Candidate>, t: OfType)
    ensures
        kept(t, candidates) == type_matches(candidates, t.requested@),
    decreases candidates.len(),
{
    if candidates.len() > 0 {
        lemma_type_matches(candidates.drop_last(), t);
    }
}

/// A cell of the given brand and nominal capacity.
pub struct InBucket {
    pub brand: String,
    pub nominal_mah: Option<i64>,
}

impl Test<Candidate> for InBucket {
    open spec fn holds(&self, c: Candidate) -> bool {
        c.battery.brand@ == self.brand@ && c.battery.nominal_mah == self.nominal_mah
    }

    fn check(&self, c: &Candidate) -> (r: bool) {
        same(c.battery.brand.as_str(), self.brand.as_str()) && match (
            c.battery.nominal_mah,
            self.nominal_mah,
        ) {
            (Some(a), Some(b)) => a == b,
            (None, None) => true,
            _ => false,
        }
    }
}

/// The bucket that a cell stands in.
pub open spec fn bucket_test(c: Candidate) -> InBucket {
    InBucket { brand: c.battery.brand, nominal_mah: c.battery.nominal_mah }
}

/// The cells of `found` with the brand and nominal capacity of `found[k]`.
pub open spec fn bucket(found: Seq<Candidate>, k: int) -> Seq<Candidate> {
    kept(bucket_test(found[k]), found)
}

/// The cells of that bucket which a draw would take.
pub open spec fn taken(found: Seq<Candidate>, k: int, count: int, draw: Draw) -> Seq<Candidate> {
    ranked(bucket(found, k), draw).take(count)
}

/// Whether `found[k]` is the first of its bucket.
pub open spec fn opens_bucket(found: Seq<Candidate>, k: int) -> bool {
    forall|j: int| 0 <= j < k ==> !bucket_test(found[k]).holds(#[trigger] found[j])
}

/// Whether the cells taken from bucket `k` suit the draw better on average
/// than those taken from bucket `best`: weaker for a low one, stronger for a
/// high one. Equally many are taken from either.
pub open spec fn suits_better(
    found: Seq<Candidate>,
    k: int,
    best: int,
    count: int,
    draw: Draw,
) -> bool {
    let here = total_num(taken(found, k, count, draw)) * share_base(found[best].battery.nominal_mah);
    let there = total_num(taken(found, best, count, draw)) * share_base(
        found[k].battery.nominal_mah,
    );
    match draw {
        Draw::Low => here < there,
        Draw::High => here > there,
    }
}

/// The first member of the best bucket that is big enough, among the buckets
/// that the first `n` cells open. Of equally good buckets it is the first.
pub open spec fn best_bucket(found: Seq<Candidate>, n: int, count: int, draw: Draw) -> Option<int>
    decreases n,
{
    if n <= 0 {
        None
    } else {
        let before = best_bucket(found, n - 1, count, draw);
        if !opens_bucket(found, n - 1) || bucket(found, n - 1).len() < count {
            before
        } else {
            match before {
                None => Some(n - 1),
                Some(k) => if suits_better(found, n - 1, k, count, draw) {
                    Some(n - 1)
                } else {
                    before
                },
            }
        }
    }
}

pub proof fn lemma_best_bucket(found: Seq<Candidate>, n: int, count: int, draw: Draw)
    requires
        n <= found.len(),
    ensures
        best_bucket(found, n, count, draw) matches Some(k) ==> 0 <= k < n && bucket(
            found,
            k,
        ).len() >= count,
        best_bucket(found, n, count, draw) is None ==> forall|j: int|
            0 <= j < n && #[trigger] opens_bucket(found, j) ==> bucket(found, j).len() < count,
    decreases n,
{
    if n > 0 {
        lemma_best_bucket(found, n - 1, count, draw);
    }
}

fn opens(found: &Vec<Candidate>, k: usize) -> (r: bool)
    requires
        k < found@.len(),
    ensures
        r == opens_bucket(found@, k as int),
{
    let t = InBucket {
        brand: found[k].battery.brand.clone(),
        nominal_mah: found[k].battery.nominal_mah,
    };
    let mut j: usize = 0;
    while j < k
        invariant
            j <= k < found@.len(),
            t == bucket_test(found@[k as int]),
            forall|i: int| 0 <= i < j ==> !t.holds(#[trigger] found@[i]),
        decreases k - j,
    {
        if t.check(&found[j]) {
            return false;
        }
        j = j + 1;
    }
    true
}

fn total(cells: &Vec<Candidate>, count: usize) -> (r: Strength)
    requires
        0 < count <= cells@.len(),
        forall|i: int|
            0 <= i < cells@.len() ==> (#[trigger] cells@[i]).battery.nominal_mah
                == cells@[0].battery.nominal_mah,
    ensures
        r.wf(),
        r.base == share_base(cells@[0].battery.nominal_mah),
        r.num() == total_num(cells@.take(count as int)),
        i128::MIN / 2 < r.high < i128::MAX / 2,
{
    let first = strength_of(&cells[0]);
    let mut sum = Strength { high: 0, low: 0, rem: 0, base: first.base };
    let mut i: usize = 0;
    assert(sum.num() == 0) by {
        assert(sum.twentieths() == 0);
        assert(0 * sum.base == 0) by (nonlinear_arith);
    }
    while i < count
        invariant
            i <= count <= cells@.len(),
            sum.wf(),
            sum.base == share_base(cells@[0].battery.nominal_mah),
            sum.num() == total_num(cells@.take(i as int)),
            -0x1_0002 * i <= sum.high <= 0x1_0002 * i,
            forall|i: int|
                0 <= i < cells@.len() ==> (#[trigger] cells@[i]).battery.nominal_mah
                    == cells@[0].battery.nominal_mah,
        decreases count - i,
    {
        assert(cells@.take(i + 1).drop_last() =~= cells@.take(i as int));
        let here = strength_of(&cells[i]);
        assert(cells@[i as int].battery.nominal_mah == cells@[0].battery.nominal_mah);
        sum = plus(sum, here);
        i = i + 1;
    }
    sum
}

// ── The suggestion ──────────────────────────────────────────────────────

#[derive(Debug)]
pub struct Suggestion {
    /// The picked cells, by id from small to large.
    pub battery_ids: Vec<i64>,
    /// Whether no single brand and nominal capacity in the pool had enough
    /// cells, so that the pick mixes them.
    pub mixed: bool,
    /// The picked cells whose resistance was never read, in rank order.
    pub ir_assumed_ids: Vec<i64>,
}

#[verifier::ext_equal]
pub struct SuggestionView {
    pub battery_ids: Seq<i64>,
    pub mixed: bool,
    pub ir_assumed_ids: Seq<i64>,
}

impl View for Suggestion {
    type V = SuggestionView;

    open spec fn view(&self) -> SuggestionView {
        SuggestionView {
            battery_ids: self.battery_ids@,
            mixed: self.mixed,
            ir_assumed_ids: self.ir_assumed_ids@,
        }
    }
}

/// A cell whose resistance was assumed.
pub struct Assumed;

impl Test<Candidate> for Assumed {
    open spec fn holds(&self, c: Candidate) -> bool {
        c.ir_assumed
    }

    fn check(&self, c: &Candidate) -> (r: bool) {
        c.ir_assumed
    }
}

pub open spec fn ids(s: Seq<Candidate>) -> Seq<i64> {
    s.map_values(|c: Candidate| c.battery.id)
}

fn ids_of(v: &Vec<Candidate>) -> (r: Vec<i64>)
    ensures
        r@ == ids(v@),
{
    let mut out: Vec<i64> = Vec::new();
    let mut i: usize = 0;
    while i < v.len()
        invariant
            i <= v@.len(),
            out@ == ids(v@).take(i as int),
        decreases v@.len() - i,
    {
        out.push(v[i].battery.id);
        assert(out@ =~= ids(v@).take(i + 1));
        i = i + 1;
    }
    assert(ids(v@).take(v@.len() as int) =~= ids(v@));
    out
}

/// The cells that a request picks, in rank order, and whether they are mixed:
/// those taken from the best bucket, or from all cells of the type where no
/// bucket has enough.
pub open spec fn picked(found: Seq<Candidate>, count: int, draw: Draw) -> Option<
    (Seq<Candidate>, bool),
> {
    match best_bucket(found, found.len() as int, count, draw) {
        Some(k) => Some((taken(found, k, count, draw), false)),
        None => if found.len() >= count {
            Some((ranked(found, draw).take(count), true))
        } else {
            None
        },
    }
}

pub open spec fn too_few_text(available: int, requested_type: Seq<char>, count: int) -> Seq<
    char,
> {
    "Only "@ + int_text(available) + " \""@ + requested_type + "\" batter"@ + (if available == 1 {
        "y is"@
    } else {
        "ies are"@
    }) + " available in storage; "@ + int_text(count) + " requested."@
}

pub open spec fn suggested(
    candidates: Seq<Candidate>,
    requested_type: Seq<char>,
    count: int,
    draw: Draw,
) -> Result<SuggestionView, Seq<char>> {
    let found = type_matches(candidates, requested_type);
    if count == 0 {
        Err("Ask for at least one battery."@)
    } else {
        match picked(found, count, draw) {
            Some((cells, mixed)) => Ok(
                SuggestionView {
                    battery_ids: sorted(Ascending, ids(cells)),
                    mixed,
                    ir_assumed_ids: ids(kept(Assumed, cells)),
                },
            ),
            None => Err(too_few_text(found.len() as int, requested_type, count)),
        }
    }
}

fn bucket_of(found: &Vec<Candidate>, k: usize) -> (r: Vec<Candidate>)
    requires
        k < found@.len(),
    ensures
        r@ == bucket(found@, k as int),
{
    select(
        &InBucket {
            brand: found[k].battery.brand.clone(),
            nominal_mah: found[k].battery.nominal_mah,
        },
        found,
    )
}

pub proof fn lemma_ranked_bucket(found: Seq<Candidate>, k: int, draw: Draw)
    requires
        0 <= k < found.len(),
    ensures
        ranked(bucket(found, k), draw).len() == bucket(found, k).len(),
        forall|i: int|
            0 <= i < ranked(bucket(found, k), draw).len() ==> bucket_test(found[k]).holds(
                #[trigger] ranked(bucket(found, k), draw)[i],
            ),
{
    let b = bucket(found, k);
    let o = ByStrength { draw };
    sorted_keeps_all(o, b);
    sorted_same_members(o, b);
    kept_members(bucket_test(found[k]), found);
    assert forall|i: int| 0 <= i < ranked(b, draw).len() implies bucket_test(found[k]).holds(
        #[trigger] ranked(b, draw)[i],
    ) by {
        assert(ranked(b, draw).contains(ranked(b, draw)[i]));
        assert(b.contains(ranked(b, draw)[i]));
    }
}

fn best_of(found: &Vec<Candidate>, count: usize, draw: Draw) -> (r: Option<Vec<Candidate>>)
    requires
        count > 0,
    ensures
        match (r, best_bucket(found@, found@.len() as int, count as int, draw)) {
            (Some(v), Some(k)) => v@ == ranked(bucket(found@, k), draw),
            (None, None) => true,
            _ => false,
        },
{
    let mut best: Option<(Vec<Candidate>, Strength)> = None;
    let mut i: usize = 0;
    while i < found.len()
        invariant
            i <= found@.len(),
            count > 0,
            match (best, best_bucket(found@, i as int, count as int, draw)) {
                (Some((v, sum)), Some(k)) => {
                    &&& 0 <= k < i
                    &&& v@ == ranked(bucket(found@, k), draw)
                    &&& sum.wf()
                    &&& sum.base == share_base(found@[k].battery.nominal_mah)
                    &&& sum.num() == total_num(taken(found@, k, count as int, draw))
                    &&& i128::MIN / 2 < sum.high < i128::MAX / 2
                },
                (None, None) => true,
                _ => false,
            },
        decreases found@.len() - i,
    {
        if opens(found, i) {
            let group = bucket_of(found, i);
            if group.len() >= count {
                let v = rank(group, draw);
                proof {
                    lemma_ranked_bucket(found@, i as int, draw);
                    assert(bucket_test(found@[i as int]).holds(v@[0]));
                }
                let sum = total(&v, count);
                let better = match &best {
                    None => true,
                    Some((_, other)) => match draw {
                        Draw::Low => less(&sum, other),
                        Draw::High => less(other, &sum),
                    },
                };
                if better {
                    best = Some((v, sum));
                }
            }
        }
        i = i + 1;
    }
    match best {
        Some((v, _)) => Some(v),
        None => None,
    }
}

/// Picks `count` batteries of `requested_type` out of `candidates`.
///
/// It prefers a single brand and nominal capacity with enough cells to fill
/// the request alone, and mixes only where there is none. Of several, the one
/// whose picked cells suit `draw` best wins. Whatever the choice, the cells
/// that the draw ranks first are picked, and come back by id.
pub fn suggest(
    candidates: &Vec<Candidate>,
    requested_type: &str,
    count: usize,
    draw: Draw,
) -> (r: Result<Suggestion, String>)
    ensures
        match r {
            Ok(s) => suggested(candidates@, requested_type@, count as int, draw) == Ok::<
                SuggestionView,
                Seq<char>,
            >(s@),
            Err(e) => suggested(candidates@, requested_type@, count as int, draw) == Err::<
                SuggestionView,
                Seq<char>,
            >(e@),
        },
{
    if count == 0 {
        return Err("Ask for at least one battery.".to_string());
    }
    let wanted = OfType { requested: requested_type.to_string() };
    let found = select(&wanted, candidates);
    proof {
        lemma_type_matches(candidates@, wanted);
        lemma_best_bucket(found@, found@.len() as int, count as int, draw);
    }
    let mut mixed = false;
    let order = match best_of(&found, count, draw) {
        Some(v) => {
            proof {
                let k = best_bucket(found@, found@.len() as int, count as int, draw)->0;
                lemma_ranked_bucket(found@, k, draw);
            }
            v
        },
        None => {
            if found.len() < count {
                let mut m = "Only ".to_string();
                push_int(&mut m, found.len() as i128);
                m.append(" \"");
                m.append(requested_type);
                m.append("\" batter");
                if found.len() == 1 {
                    m.append("y is");
                } else {
                    m.append("ies are");
                }
                m.append(" available in storage; ");
                push_int(&mut m, count as i128);
                m.append(" requested.");
                return Err(m);
            }
            mixed = true;
            proof {
                sorted_keeps_all(ByStrength { draw }, found@);
            }
            rank(found, draw)
        },
    };
    let mut cells: Vec<Candidate> = Vec::new();
    let mut i: usize = 0;
    while i < count
        invariant
            i <= count <= order@.len(),
            cells@ == order@.take(i as int),
        decreases count - i,
    {
        cells.push(order[i].clone());
        assert(cells@ =~= order@.take(i + 1));
        i = i + 1;
    }
    let battery_ids = sort(&Ascending, ids_of(&cells));
    let ir_assumed_ids = ids_of(&select(&Assumed, &cells));
    Ok(Suggestion { battery_ids, mixed, ir_assumed_ids })
}

// ── What a suggestion promises ──────────────────────────────────────────

/// Success is owed exactly where enough cells of the type are there.
pub proof fn enough_cells_are_found(
    candidates: Seq<Candidate>,
    requested_type: Seq<char>,
    count: int,
    draw: Draw,
)
    requires
        count > 0,
    ensures
        suggested(candidates, requested_type, count, draw) is Ok <==> type_matches(
            candidates,
            requested_type,
        ).len() >= count,
{
    let found = type_matches(candidates, requested_type);
    lemma_best_bucket(found, found.len() as int, count, draw);
    if let Some(k) = best_bucket(found, found.len() as int, count, draw) {
        kept_members(bucket_test(found[k]), found);
    }
}

/// As many cells come back as were asked for.
pub proof fn as_many_as_asked(found: Seq<Candidate>, count: int, draw: Draw)
    requires
        count > 0,
    ensures
        picked(found, count, draw) matches Some((cells, _)) ==> {
            &&& cells.len() == count
            &&& sorted(Ascending, ids(cells)).len() == count
            &&& forall|c: Candidate| #[trigger] cells.contains(c) ==> found.contains(c)
        },
{
    lemma_best_bucket(found, found.len() as int, count, draw);
    if let Some((cells, _)) = picked(found, count, draw) {
        let (from, k) = match best_bucket(found, found.len() as int, count, draw) {
            Some(k) => (bucket(found, k), k),
            None => (found, 0),
        };
        let o = ByStrength { draw };
        sorted_keeps_all(o, from);
        sorted_same_members(o, from);
        kept_members(bucket_test(found[k]), found);
        sorted_keeps_all(Ascending, ids(cells));
        assert forall|c: Candidate| #[trigger] cells.contains(c) implies found.contains(c) by {
            let i = cells.index_of(c);
            assert(ranked(from, draw)[i] == c);
            assert(ranked(from, draw).contains(c));
            assert(from.contains(c));
        }
    }
}

/// Cells are mixed only where no brand and nominal capacity alone has enough
/// of them, and where they are not mixed they are all of one.
pub proof fn one_bucket_where_possible(found: Seq<Candidate>, count: int, draw: Draw)
    requires
        count > 0,
    ensures
        picked(found, count, draw) matches Some((cells, mixed)) ==> {
            &&& mixed <==> forall|j: int|
                0 <= j < found.len() ==> (#[trigger] bucket(found, j)).len() < count
            &&& !mixed ==> forall|a: int, b: int|
                0 <= a < cells.len() && 0 <= b < cells.len() ==> (#[trigger] cells[a]).battery.brand@
                    == (#[trigger] cells[b]).battery.brand@ && cells[a].battery.nominal_mah
                    == cells[b].battery.nominal_mah
        },
{
    let n = found.len() as int;
    lemma_best_bucket(found, n, count, draw);
    match best_bucket(found, n, count, draw) {
        Some(k) => {
            lemma_ranked_bucket(found, k, draw);
            let cells = taken(found, k, count, draw);
            assert(bucket(found, k).len() >= count);
            assert forall|a: int, b: int|
                0 <= a < cells.len() && 0 <= b < cells.len() implies (
            #[trigger] cells[a]).battery.brand@ == (#[trigger] cells[b]).battery.brand@
                && cells[a].battery.nominal_mah == cells[b].battery.nominal_mah by {
                assert(bucket_test(found[k]).holds(ranked(bucket(found, k), draw)[a]));
                assert(bucket_test(found[k]).holds(ranked(bucket(found, k), draw)[b]));
            }
        },
        None => {
            assert forall|j: int| 0 <= j < found.len() implies (#[trigger] bucket(found, j)).len()
                < count by {
                lemma_opener(found, j);
                let i = choose|i: int|
                    0 <= i <= j && #[trigger] opens_bucket(found, i) && bucket_test(found[j]).holds(
                        found[i],
                    );
                assert(bucket(found, i).len() < count);
                lemma_same_bucket(found, found, i, j);
            }
        },
    }
}

/// Every cell's bucket is opened by some cell.
pub proof fn lemma_opener(found: Seq<Candidate>, j: int)
    requires
        0 <= j < found.len(),
    ensures
        exists|i: int|
            0 <= i <= j && #[trigger] opens_bucket(found, i) && bucket_test(found[j]).holds(found[i]),
    decreases j,
{
    if !opens_bucket(found, j) {
        let i = choose|i: int| 0 <= i < j && bucket_test(found[j]).holds(#[trigger] found[i]);
        lemma_opener(found, i);
        let k = choose|k: int|
            0 <= k <= i && #[trigger] opens_bucket(found, k) && bucket_test(found[i]).holds(found[k]);
        assert(bucket_test(found[j]).holds(found[k]));
    }
}

pub proof fn lemma_same_bucket(found: Seq<Candidate>, s: Seq<Candidate>, i: int, j: int)
    requires
        0 <= i < found.len(),
        0 <= j < found.len(),
        bucket_test(found[j]).holds(found[i]),
    ensures
        kept(bucket_test(found[i]), s) == kept(bucket_test(found[j]), s),
    decreases s.len(),
{
    if s.len() > 0 {
        lemma_same_bucket(found, s.drop_last(), i, j);
    }
}

/// No cell that was left out of the ranked group suits the draw better than
/// one that was picked from it: a low draw takes the weakest cells, a high one
/// the strongest.
pub proof fn picks_suit_the_draw(group: Seq<Candidate>, count: int, draw: Draw, i: int, j: int)
    requires
        0 <= i < count <= j < group.len(),
    ensures
        match draw {
            Draw::Low => no_stronger(ranked(group, draw).take(count)[i], ranked(group, draw)[j]),
            Draw::High => no_stronger(ranked(group, draw)[j], ranked(group, draw).take(count)[i]),
        },
{
    let o = ByStrength { draw };
    sorted_in_order(o, group);
    sorted_keeps_all(o, group);
    assert(o.le(ranked(group, draw)[i], ranked(group, draw)[j]));
}

} // verus!
