//! What a suggestion is for, said of the cells themselves.

use vstd::multiset::Multiset;
use vstd::prelude::*;
use vstd::seq_lib::group_to_multiset_ensures;
use crate::matching::{
    best_bucket, bucket, bucket_test, candidate_of, ids, lemma_best_bucket, lemma_fractions_trans,
    lemma_opener, lemma_ranked_bucket, lemma_same_bucket, of_type, opens_bucket, picked, pool,
    ranked, readings_of, share_base, strength_num, suggested, taken, total_num, type_matches,
    Assumed, ByStrength, Candidate, Draw,
};
use crate::health_laws::{
    capacities_by_date, has_capacity, has_resistance, is_latest, resistances_by_date,
};
use crate::rows::{Battery, Measurement};
use crate::text::same_ignoring_case;
use crate::order::{sorted_in_order, sorted_keeps_all, Ascending, Order};
use crate::select::{kept, lemma_kept_count, lemma_none_count, lemma_push_count, Test};

verus! {

/// Whether two characters differ at most in the case of an ASCII letter.
pub open spec fn same_letter(a: char, b: char) -> bool {
    ||| a == b
    ||| 'a' <= a <= 'z' && a as u32 == b as u32 + 32
    ||| 'a' <= b <= 'z' && b as u32 == a as u32 + 32
}

/// Whether two texts differ at most in the case of ASCII letters.
pub open spec fn same_but_for_case(a: Seq<char>, b: Seq<char>) -> bool {
    a.len() == b.len() && forall|i: int| 0 <= i < a.len() ==> same_letter(#[trigger] a[i], b[i])
}

/// Whether a cell is of a type, whatever its case.
pub open spec fn fits(c: Candidate, requested: Seq<char>) -> bool {
    same_but_for_case(c.battery.cell_type@, requested)
}

/// The strength of a cell, as the numerator of a fraction: its capacity in
/// percent of the nominal one less a twentieth of its resistance, in twentieths
/// of the nominal capacity's share. A cell without a nominal capacity goes by its
/// capacity alone.
pub open spec fn score(c: Candidate) -> int {
    match c.battery.nominal_mah {
        Some(n) if n > 0 => 20 * (100 * c.capacity_mah) - n * c.ir_mohm,
        Some(n) if n < 0 => 20 * (-100 * c.capacity_mah) - (-n) * c.ir_mohm,
        _ => 20 * c.capacity_mah - c.ir_mohm,
    }
}

/// What the strength of a cell is a fraction of.
pub open spec fn per(c: Candidate) -> int {
    match c.battery.nominal_mah {
        Some(n) if n > 0 => n as int,
        Some(n) if n < 0 => -n,
        _ => 1,
    }
}

/// The scores of some cells together.
pub open spec fn scores(s: Seq<Candidate>) -> int
    decreases s.len(),
{
    if s.len() == 0 {
        0
    } else {
        score(s[0]) + scores(s.skip(1))
    }
}

/// Cells that could be handed out together: so many different ones out of the
/// pool, all of the type.
pub open spec fn choice(
    cells: Seq<Candidate>,
    candidates: Seq<Candidate>,
    requested: Seq<char>,
    count: int,
) -> bool {
    &&& cells.len() == count
    &&& cells.to_multiset().subset_of(candidates.to_multiset())
    &&& forall|i: int| 0 <= i < cells.len() ==> fits(#[trigger] cells[i], requested)
}

/// Cells of one brand and one nominal capacity.
pub open spec fn alike(cells: Seq<Candidate>) -> bool {
    forall|i: int, j: int|
        0 <= i < cells.len() && 0 <= j < cells.len() ==> (#[trigger] cells[i]).battery.brand@ == (
        #[trigger] cells[j]).battery.brand@ && cells[i].battery.nominal_mah
            == cells[j].battery.nominal_mah
}

/// What a suggestion has to be. The cells that it names are a choice out of the
/// pool, told by their numbers from small to large, and those whose resistance
/// was never read are told apart. They are of one brand and nominal capacity
/// wherever so many such cells can be chosen, and no other such choice is
/// weaker on average for a low draw, or stronger for a high one. Of the cells
/// that were left (of that brand and capacity, where they are of one) none is
/// weaker for a low draw, or stronger for a high one, than any that was picked.
pub open spec fn right_for(
    cells: Seq<Candidate>,
    mixed: bool,
    candidates: Seq<Candidate>,
    requested: Seq<char>,
    count: int,
    draw: Draw,
) -> bool {
    &&& choice(cells, candidates, requested, count)
    &&& !mixed ==> alike(cells)
    &&& mixed ==> forall|others: Seq<Candidate>| #[trigger]
        choice(others, candidates, requested, count) ==> !alike(others)
    &&& !mixed ==> forall|others: Seq<Candidate>| #[trigger]
        choice(others, candidates, requested, count) && alike(others) ==> match draw {
            Draw::Low => scores(cells) * per(others[0]) <= scores(others) * per(cells[0]),
            Draw::High => scores(cells) * per(others[0]) >= scores(others) * per(cells[0]),
        }
    &&& forall|i: int, c: Candidate|
        0 <= i < cells.len() && fits(c, requested) && candidates.to_multiset().count(c)
            > #[trigger] cells.to_multiset().count(c) && (mixed || (c.battery.brand@
            == cells[i].battery.brand@ && c.battery.nominal_mah == cells[i].battery.nominal_mah))
            ==> match draw {
            Draw::Low => score(#[trigger] cells[i]) * per(c) <= score(c) * per(cells[i]),
            Draw::High => score(cells[i]) * per(c) >= score(c) * per(cells[i]),
        }
}

/// Every suggestion is right for its request: the one brand and capacity whose
/// cells are the weakest on average is used up by a low draw, the strongest is
/// handed to a high one, and cells are mixed only where there is no other way.
pub proof fn a_suggestion_is_right(
    candidates: Seq<Candidate>,
    requested: Seq<char>,
    count: int,
    draw: Draw,
)
    requires
        count > 0,
    ensures
        suggested(candidates, requested, count, draw) matches Ok(s) ==> {
            &&& forall|i: int, j: int|
                0 <= i < j < s.battery_ids.len() ==> s.battery_ids[i] <= s.battery_ids[j]
            &&& exists|cells: Seq<Candidate>| #[trigger]
                right_for(cells, s.mixed, candidates, requested, count, draw)
                    && s.battery_ids.to_multiset() == cells.map_values(
                    |c: Candidate| c.battery.id,
                ).to_multiset() && s.ir_assumed_ids == cells.filter(
                    |c: Candidate| c.ir_assumed,
                ).map_values(|c: Candidate| c.battery.id)
        },
{
    let found = type_matches(candidates, requested);
    if let Ok(s) = suggested(candidates, requested, count, draw) {
        let (cells, mixed) = picked(found, count, draw)->0;
        lemma_found(candidates, requested);
        lemma_picked_right(candidates, requested, count, draw);
        sorted_keeps_all(Ascending, ids(cells));
        sorted_in_order(Ascending, ids(cells));
        let b = s.battery_ids;
        assert forall|i: int, j: int| 0 <= i < j < b.len() implies b[i] <= b[j] by {
            assert(Ascending.le(b[i], b[j]));
        }
        assert(ids(cells) =~= cells.map_values(|c: Candidate| c.battery.id));
        lemma_kept_is_filter(cells);
        assert(s.ir_assumed_ids =~= cells.filter(|c: Candidate| c.ir_assumed).map_values(
            |c: Candidate| c.battery.id,
        ));
        assert(right_for(cells, s.mixed, candidates, requested, count, draw));
    }
}

/// A request is refused exactly where so many cells of the type cannot be
/// chosen at all.
pub proof fn a_refusal_is_owed(
    candidates: Seq<Candidate>,
    requested: Seq<char>,
    count: int,
    draw: Draw,
    cells: Seq<Candidate>,
)
    requires
        count > 0,
        choice(cells, candidates, requested, count),
    ensures
        suggested(candidates, requested, count, draw) is Ok,
{
    let found = type_matches(candidates, requested);
    lemma_found(candidates, requested);
    lemma_within(cells, candidates, requested);
    broadcast use group_to_multiset_ensures;

    lemma_subset_len(cells.to_multiset(), found.to_multiset());
    crate::matching::enough_cells_are_found(candidates, requested, count, draw);
}

// ── The pool ────────────────────────────────────────────────────────────

/// A cell that can be handed out: it is not deleted, it lies in the pool, and
/// its capacity was read.
pub open spec fn available(b: Battery, ms: Seq<Measurement>, pool_location: Seq<char>) -> bool {
    &&& b.deleted_at is None
    &&& same_but_for_case(b.location@, pool_location)
    &&& exists|m: Measurement| #[trigger] ms.contains(m) && has_capacity(m)
}

/// Whether a candidate goes by the readings of its cell: the capacity that was
/// read last, and the resistance that was read last or else the assumed one.
pub open spec fn goes_by(c: Candidate, ms: Seq<Measurement>, default_ir_mohm: i64) -> bool {
    &&& exists|m: Measurement| #[trigger]
        ms.contains(m) && is_latest(m, ms, |m: Measurement| has_capacity(m)) && m.capacity_mah
            == Some(c.capacity_mah)
    &&& c.ir_assumed <==> forall|m: Measurement| #[trigger] ms.contains(m) ==> !has_resistance(m)
    &&& c.ir_assumed ==> c.ir_mohm == default_ir_mohm
    &&& !c.ir_assumed ==> exists|m: Measurement| #[trigger]
        ms.contains(m) && is_latest(m, ms, |m: Measurement| has_resistance(m)) && m.ir_mohm
            == Some(c.ir_mohm)
}

/// The pool holds the cells that are available, in their order and no others,
/// and each goes by its readings.
pub proof fn the_pool_holds_what_is_available(
    batteries: Seq<Battery>,
    measurements: Map<i64, Vec<Measurement>>,
    pool_location: Seq<char>,
    default_ir_mohm: i64,
)
    ensures
        ({
            let cells = pool(batteries, measurements, pool_location, default_ir_mohm);
            &&& cells.map_values(|c: Candidate| c.battery) == batteries.filter(
                |b: Battery| available(b, readings_of(measurements, b.id), pool_location),
            )
            &&& forall|i: int|
                0 <= i < cells.len() ==> goes_by(
                    #[trigger] cells[i],
                    readings_of(measurements, cells[i].battery.id),
                    default_ir_mohm,
                )
        }),
    decreases batteries.len(),
{
    reveal(Seq::filter);
    let cells = pool(batteries, measurements, pool_location, default_ir_mohm);
    let p = |b: Battery| available(b, readings_of(measurements, b.id), pool_location);
    let g = |c: Candidate| c.battery;
    if batteries.len() > 0 {
        let d = batteries.drop_last();
        the_pool_holds_what_is_available(d, measurements, pool_location, default_ir_mohm);
        let before = pool(d, measurements, pool_location, default_ir_mohm);
        let b = batteries.last();
        let ms = readings_of(measurements, b.id);
        lemma_candidate(b, ms, pool_location, default_ir_mohm);
        if let Some(c) = candidate_of(b, ms, pool_location, default_ir_mohm) {
            assert(cells.map_values(g) =~= before.map_values(g).push(b));
            assert forall|i: int| 0 <= i < cells.len() implies goes_by(
                #[trigger] cells[i],
                readings_of(measurements, cells[i].battery.id),
                default_ir_mohm,
            ) by {
                if i < before.len() {
                    assert(cells[i] == before[i]);
                }
            }
        }
        assert(batteries.filter(p) == if p(b) {
            d.filter(p).push(b)
        } else {
            d.filter(p)
        });
    } else {
        assert(cells.map_values(g) =~= batteries.filter(p));
    }
}

pub proof fn lemma_candidate(
    b: Battery,
    ms: Seq<Measurement>,
    pool_location: Seq<char>,
    default_ir_mohm: i64,
)
    ensures
        match candidate_of(b, ms, pool_location, default_ir_mohm) {
            Some(c) => available(b, ms, pool_location) && c.battery == b && goes_by(
                c,
                ms,
                default_ir_mohm,
            ),
            None => !available(b, ms, pool_location),
        },
{
    case_alone_is_ignored(b.location@, pool_location);
    capacities_by_date(ms);
    resistances_by_date(ms);
    let found = crate::health::analysed(ms);
    let p = |m: Measurement| has_capacity(m);
    let q = |m: Measurement| has_resistance(m);
    if found.len() > 0 {
        let m = found.last();
        assert(is_latest(m, ms, p));
        assert(p(m));
        assert(ms.contains(m) && has_capacity(m));
    }
    let r = crate::health::with_resistance(ms);
    if r.len() > 0 {
        let m = r.last();
        assert(is_latest(m, ms, q));
        assert(q(m));
        assert(ms.contains(m));
    }
}

// ── Proofs ──────────────────────────────────────────────────────────────

proof fn lemma_subset_len<T>(a: Multiset<T>, b: Multiset<T>)
    requires
        a.subset_of(b),
    ensures
        a.len() <= b.len(),
{
    broadcast use vstd::multiset::group_multiset_axioms;

    assert(b.sub(a).len() == b.len() - a.len());
}

/// Upper and lower case make no difference, and nothing else is overlooked.
pub proof fn case_alone_is_ignored(a: Seq<char>, b: Seq<char>)
    ensures
        same_ignoring_case(a, b) == same_but_for_case(a, b),
{
    let f = |x: char| crate::text::ascii_lower(x);
    if same_but_for_case(a, b) {
        assert forall|i: int| 0 <= i < a.len() implies a.map_values(f)[i] == b.map_values(
            f,
        )[i] by {
            assert(same_letter(a[i], b[i]));
        }
        assert(a.map_values(f) =~= b.map_values(f));
    }
    if same_ignoring_case(a, b) {
        assert(a.map_values(f).len() == b.map_values(f).len());
        assert forall|i: int| 0 <= i < a.len() implies same_letter(#[trigger] a[i], b[i]) by {
            assert(a.map_values(f)[i] == b.map_values(f)[i]);
        }
    }
}

proof fn lemma_fits(c: Candidate, requested: Seq<char>)
    ensures
        of_type(c, requested) == fits(c, requested),
{
    case_alone_is_ignored(c.battery.cell_type@, requested);
}

/// The cells of the type, as often as they are there.
proof fn lemma_found(candidates: Seq<Candidate>, requested: Seq<char>)
    ensures
        forall|c: Candidate| #[trigger]
            type_matches(candidates, requested).to_multiset().count(c) == (if fits(c, requested) {
                candidates.to_multiset().count(c)
            } else {
                0
            }),
{
    assert forall|c: Candidate| #[trigger]
        type_matches(candidates, requested).to_multiset().count(c) == (if fits(c, requested) {
            candidates.to_multiset().count(c)
        } else {
            0
        }) by {
        lemma_found_count(candidates, requested, c);
    }
}

proof fn lemma_found_count(candidates: Seq<Candidate>, requested: Seq<char>, c: Candidate)
    ensures
        type_matches(candidates, requested).to_multiset().count(c) == (if fits(c, requested) {
            candidates.to_multiset().count(c)
        } else {
            0
        }),
    decreases candidates.len(),
{
    if candidates.len() > 0 {
        let d = candidates.drop_last();
        let x = candidates.last();
        lemma_found_count(d, requested, c);
        lemma_fits(x, requested);
        assert(candidates =~= d.push(x));
        lemma_push_count(d, x, c);
        lemma_push_count(type_matches(d, requested), x, c);
    } else {
        lemma_none_count(candidates, c);
    }
}

proof fn lemma_kept_counts<T, P: Test<T>>(p: P, s: Seq<T>)
    ensures
        forall|c: T| #[trigger]
            kept(p, s).to_multiset().count(c) == (if p.holds(c) {
                s.to_multiset().count(c)
            } else {
                0
            }),
{
    assert forall|c: T| #[trigger]
        kept(p, s).to_multiset().count(c) == (if p.holds(c) {
            s.to_multiset().count(c)
        } else {
            0
        }) by {
        lemma_kept_count(p, s, c);
    }
}

proof fn lemma_kept_is_filter(s: Seq<Candidate>)
    ensures
        kept(Assumed, s) == s.filter(|c: Candidate| c.ir_assumed),
    decreases s.len(),
{
    reveal(Seq::filter);
    if s.len() > 0 {
        lemma_kept_is_filter(s.drop_last());
    }
}

/// A choice lies within the cells of the type.
proof fn lemma_within(cells: Seq<Candidate>, candidates: Seq<Candidate>, requested: Seq<char>)
    requires
        cells.to_multiset().subset_of(candidates.to_multiset()),
        forall|i: int| 0 <= i < cells.len() ==> fits(#[trigger] cells[i], requested),
    ensures
        cells.to_multiset().subset_of(type_matches(candidates, requested).to_multiset()),
{
    broadcast use group_to_multiset_ensures;

    lemma_found(candidates, requested);
    let found = type_matches(candidates, requested);
    assert forall|c: Candidate|
        cells.to_multiset().count(c) <= #[trigger] found.to_multiset().count(c) by {
        if cells.to_multiset().count(c) > 0 {
            let i = cells.index_of(c);
            assert(fits(cells[i], requested));
        }
    }
}

proof fn lemma_score(c: Candidate)
    ensures
        strength_num(c) == score(c),
        share_base(c.battery.nominal_mah) == per(c),
        per(c) > 0,
{
    if let Some(n) = c.battery.nominal_mah {
        assert(-(n * c.ir_mohm) == (-n) * c.ir_mohm) by (nonlinear_arith);
    }
}

proof fn lemma_scores_push(s: Seq<Candidate>, c: Candidate)
    ensures
        scores(s.push(c)) == scores(s) + score(c),
    decreases s.len(),
{
    if s.len() > 0 {
        assert(s.push(c).skip(1) =~= s.skip(1).push(c));
        lemma_scores_push(s.skip(1), c);
    } else {
        assert(s.push(c).skip(1) =~= s);
    }
}

proof fn lemma_scores(s: Seq<Candidate>)
    ensures
        total_num(s) == scores(s),
    decreases s.len(),
{
    if s.len() > 0 {
        lemma_scores(s.drop_last());
        lemma_score(s.last());
        lemma_scores_push(s.drop_last(), s.last());
        assert(s =~= s.drop_last().push(s.last()));
    }
}

/// Taking one cell out takes its score off.
proof fn lemma_scores_remove(s: Seq<Candidate>, p: int)
    requires
        0 <= p < s.len(),
    ensures
        scores(s) == scores(s.remove(p)) + score(s[p]),
    decreases s.len(),
{
    if p == 0 {
        assert(s.remove(0) =~= s.skip(1));
    } else {
        assert(s.remove(p).skip(1) =~= s.skip(1).remove(p - 1));
        assert(s.remove(p)[0] == s[0]);
        lemma_scores_remove(s.skip(1), p - 1);
    }
}

/// The same cells in another order have the same scores.
proof fn lemma_scores_same(a: Seq<Candidate>, b: Seq<Candidate>)
    requires
        a.to_multiset() == b.to_multiset(),
    ensures
        scores(a) == scores(b),
    decreases a.len(),
{
    broadcast use group_to_multiset_ensures;

    vstd::seq_lib::to_multiset_len(a);
    vstd::seq_lib::to_multiset_len(b);
    if a.len() > 0 {
        let x = a[a.len() - 1];
        assert(a.contains(x));
        assert(b.to_multiset().count(x) > 0);
        let p = b.index_of(x);
        lemma_scores_remove(b, p);
        lemma_scores_remove(a, a.len() - 1);
        assert(a.remove(a.len() - 1).to_multiset() =~= b.remove(p).to_multiset());
        lemma_scores_same(a.remove(a.len() - 1), b.remove(p));
    }
}

spec fn no_better(a: Candidate, b: Candidate, draw: Draw) -> bool {
    match draw {
        Draw::Low => score(a) <= score(b),
        Draw::High => score(a) >= score(b),
    }
}

/// The first cells of a row in order have the best scores of any as many.
proof fn lemma_first_are_best(r: Seq<Candidate>, others: Seq<Candidate>, draw: Draw)
    requires
        forall|i: int, j: int|
            0 <= i < j < r.len() ==> no_better(#[trigger] r[i], #[trigger] r[j], draw),
        others.to_multiset().subset_of(r.to_multiset()),
    ensures
        others.len() <= r.len(),
        draw is Low ==> scores(r.take(others.len() as int)) <= scores(others),
        draw is High ==> scores(r.take(others.len() as int)) >= scores(others),
    decreases r.len(),
{
    broadcast use {
        group_to_multiset_ensures,
        vstd::multiset::group_multiset_axioms,
        vstd::multiset::group_multiset_properties,
    };

    let n = others.len() as int;
    lemma_subset_len(others.to_multiset(), r.to_multiset());
    if n == r.len() {
        assert(r.take(n) =~= r);
        let left = r.to_multiset().sub(others.to_multiset());
        assert(left.len() == 0);
        assert(others.to_multiset() =~= r.to_multiset()) by {
            assert forall|c: Candidate|
                #[trigger] others.to_multiset().count(c) == r.to_multiset().count(c) by {
                assert(left.count(c) <= left.len());
            }
        }
        lemma_scores_same(others, r);
    } else {
        let q = r.drop_last();
        let m = r.last();
        assert(r =~= q.push(m));
        assert(q.take(n) =~= r.take(n));
        assert forall|i: int, j: int| 0 <= i < j < q.len() implies no_better(
            #[trigger] q[i],
            #[trigger] q[j],
            draw,
        ) by {
            assert(no_better(r[i], r[j], draw));
        }
        if others.to_multiset().subset_of(q.to_multiset()) {
            lemma_first_are_best(q, others, draw);
        } else {
            let c = choose|c: Candidate|
                #[trigger] others.to_multiset().count(c) > q.to_multiset().count(c);
            assert(c == m);
            assert(others.contains(m));
            let p = others.index_of(m);
            let rest = others.remove(p);
            assert(rest.to_multiset().subset_of(q.to_multiset())) by {
                assert forall|x: Candidate|
                    rest.to_multiset().count(x) <= #[trigger] q.to_multiset().count(x) by {
                    assert(others.to_multiset().count(x) <= r.to_multiset().count(x));
                }
            }
            let spare = q.to_multiset().sub(rest.to_multiset());
            assert(spare.len() > 0);
            let x = spare.choose();
            assert(spare.count(x) > 0);
            assert(q.to_multiset().count(x) > 0);
            let k = q.index_of(x);
            assert(no_better(r[k], r[r.len() - 1], draw));
            let swapped = rest.push(x);
            assert(swapped.to_multiset().subset_of(q.to_multiset())) by {
                assert forall|y: Candidate|
                    swapped.to_multiset().count(y) <= #[trigger] q.to_multiset().count(y) by {
                }
            }
            lemma_first_are_best(q, swapped, draw);
            lemma_scores_push(rest, x);
            lemma_scores_remove(others, p);
        }
    }
}

/// No bucket that is big enough suits the draw better than the best one.
proof fn lemma_best_is_best(found: Seq<Candidate>, n: int, count: int, draw: Draw, i: int)
    requires
        0 <= i < n <= found.len(),
        opens_bucket(found, i),
        bucket(found, i).len() >= count,
    ensures
        best_bucket(found, n, count, draw) matches Some(k) && {
            let a = scores(taken(found, k, count, draw));
            let b = scores(taken(found, i, count, draw));
            match draw {
                Draw::Low => a * per(found[i]) <= b * per(found[k]),
                Draw::High => a * per(found[i]) >= b * per(found[k]),
            }
        },
    decreases n,
{
    lemma_best_bucket(found, n, count, draw);
    lemma_best_bucket(found, n - 1, count, draw);
    let k = best_bucket(found, n, count, draw)->0;
    lemma_scores(taken(found, k, count, draw));
    lemma_scores(taken(found, i, count, draw));
    lemma_score(found[i]);
    lemma_score(found[k]);
    if i < n - 1 {
        lemma_best_is_best(found, n - 1, count, draw, i);
        let j = best_bucket(found, n - 1, count, draw)->0;
        lemma_scores(taken(found, j, count, draw));
        lemma_score(found[j]);
        let a = scores(taken(found, k, count, draw));
        let b = scores(taken(found, i, count, draw));
        let c = scores(taken(found, j, count, draw));
        if j != k {
            match draw {
                Draw::Low => {
                    lemma_fractions_trans(a, per(found[k]), c, per(found[j]), b, per(found[i]));
                },
                Draw::High => {
                    lemma_fractions_trans(b, per(found[i]), c, per(found[j]), a, per(found[k]));
                },
            }
        }
    } else if n > 1 {
        if let Some(j) = best_bucket(found, n - 1, count, draw) {
            lemma_scores(taken(found, j, count, draw));
            lemma_score(found[j]);
        }
    }
}

/// What is ranked first scores best, among cells of one nominal capacity.
proof fn lemma_ranked(group: Seq<Candidate>, draw: Draw)
    ensures
        ranked(group, draw).to_multiset() == group.to_multiset(),
        ranked(group, draw).len() == group.len(),
        forall|i: int, j: int|
            #![trigger ranked(group, draw)[i], ranked(group, draw)[j]]
            0 <= i < j < group.len() ==> {
                let a = ranked(group, draw)[i];
                let b = ranked(group, draw)[j];
                match draw {
                    Draw::Low => score(a) * per(b) <= score(b) * per(a),
                    Draw::High => score(a) * per(b) >= score(b) * per(a),
                }
            },
{
    let o = ByStrength { draw };
    sorted_keeps_all(o, group);
    sorted_in_order(o, group);
    assert forall|i: int, j: int|
        #![trigger ranked(group, draw)[i], ranked(group, draw)[j]]
        0 <= i < j < group.len() implies {
        let a = ranked(group, draw)[i];
        let b = ranked(group, draw)[j];
        match draw {
            Draw::Low => score(a) * per(b) <= score(b) * per(a),
            Draw::High => score(a) * per(b) >= score(b) * per(a),
        }
    } by {
        let a = ranked(group, draw)[i];
        let b = ranked(group, draw)[j];
        assert(o.le(a, b));
        lemma_score(a);
        lemma_score(b);
    }
}

/// What was left of a ranked group suits no better than what was taken.
proof fn lemma_left(group: Seq<Candidate>, count: int, draw: Draw, i: int, c: Candidate)
    requires
        0 <= i < count <= group.len(),
        group.to_multiset().count(c) > ranked(group, draw).take(count).to_multiset().count(c),
    ensures
        ({
            let a = ranked(group, draw)[i];
            match draw {
                Draw::Low => score(a) * per(c) <= score(c) * per(a),
                Draw::High => score(a) * per(c) >= score(c) * per(a),
            }
        }),
{
    broadcast use {
        group_to_multiset_ensures,
        vstd::multiset::group_multiset_axioms,
        vstd::multiset::group_multiset_properties,
    };

    lemma_ranked(group, draw);
    let r = ranked(group, draw);
    let head = r.take(count);
    let tail = r.skip(count);
    assert(head + tail =~= r);
    vstd::seq_lib::lemma_multiset_commutative(head, tail);
    assert(tail.to_multiset().count(c) > 0);
    let j = tail.index_of(c);
    assert(r[count + j] == c);
}

proof fn lemma_head_within(s: Seq<Candidate>, count: int)
    requires
        0 <= count <= s.len(),
    ensures
        s.take(count).to_multiset().subset_of(s.to_multiset()),
{
    broadcast use vstd::multiset::group_multiset_axioms;

    assert(s.take(count) + s.skip(count) =~= s);
    vstd::seq_lib::lemma_multiset_commutative(s.take(count), s.skip(count));
}

proof fn lemma_picked_right(
    candidates: Seq<Candidate>,
    requested: Seq<char>,
    count: int,
    draw: Draw,
)
    requires
        count > 0,
        picked(type_matches(candidates, requested), count, draw) is Some,
    ensures
        ({
            let (cells, mixed) = picked(type_matches(candidates, requested), count, draw)->0;
            right_for(cells, mixed, candidates, requested, count, draw)
        }),
{
    broadcast use group_to_multiset_ensures;

    let found = type_matches(candidates, requested);
    let n = found.len() as int;
    let (cells, mixed) = picked(found, count, draw)->0;
    lemma_found(candidates, requested);
    lemma_best_bucket(found, n, count, draw);
    let k = best_bucket(found, n, count, draw);
    let group = match k {
        Some(k) => bucket(found, k),
        None => found,
    };
    if let Some(k) = k {
        lemma_kept_counts(bucket_test(found[k]), found);
        lemma_ranked_bucket(found, k, draw);
    }
    lemma_ranked(group, draw);
    assert(cells == ranked(group, draw).take(count));
    lemma_head_within(ranked(group, draw), count);
    assert(choice(cells, candidates, requested, count)) by {
        assert forall|c: Candidate|
            cells.to_multiset().count(c) <= #[trigger] candidates.to_multiset().count(c) by {
            assert(cells.to_multiset().count(c) <= ranked(group, draw).to_multiset().count(c));
            assert(group.to_multiset().count(c) <= found.to_multiset().count(c));
        }
        assert forall|i: int| 0 <= i < cells.len() implies fits(
            #[trigger] cells[i],
            requested,
        ) by {
            assert(cells.contains(cells[i]));
            assert(cells.to_multiset().count(cells[i]) > 0);
            assert(cells.to_multiset().count(cells[i]) <= ranked(group, draw).to_multiset().count(
                cells[i],
            ));
            assert(group.to_multiset().count(cells[i]) <= found.to_multiset().count(cells[i]));
            assert(found.to_multiset().count(cells[i]) > 0);
        }
    }
    assert forall|others: Seq<Candidate>| #[trigger]
        choice(others, candidates, requested, count) && alike(others) implies !mixed
        && match draw {
        Draw::Low => scores(cells) * per(others[0]) <= scores(others) * per(cells[0]),
        Draw::High => scores(cells) * per(others[0]) >= scores(others) * per(cells[0]),
    } by {
        lemma_others(candidates, requested, count, draw, others);
    }
    if !mixed {
        let k = k->0;
        assert forall|i: int, j: int| 0 <= i < cells.len() && 0 <= j < cells.len() implies (
        #[trigger] cells[i]).battery.brand@ == (#[trigger] cells[j]).battery.brand@
            && cells[i].battery.nominal_mah == cells[j].battery.nominal_mah by {
            assert(bucket_test(found[k]).holds(ranked(bucket(found, k), draw)[i]));
            assert(bucket_test(found[k]).holds(ranked(bucket(found, k), draw)[j]));
        }
    }
    assert forall|i: int, c: Candidate|
        0 <= i < cells.len() && fits(c, requested) && candidates.to_multiset().count(c)
            > #[trigger] cells.to_multiset().count(c) && (mixed || (c.battery.brand@
            == cells[i].battery.brand@ && c.battery.nominal_mah == cells[i].battery.nominal_mah))
        implies match draw {
        Draw::Low => score(#[trigger] cells[i]) * per(c) <= score(c) * per(cells[i]),
        Draw::High => score(cells[i]) * per(c) >= score(c) * per(cells[i]),
    } by {
        if !mixed {
            assert(bucket_test(found[k->0]).holds(ranked(group, draw)[i]));
            assert(bucket_test(found[k->0]).holds(c));
        }
        assert(found.to_multiset().count(c) == candidates.to_multiset().count(c));
        assert(group.to_multiset().count(c) == found.to_multiset().count(c));
        lemma_left(group, count, draw, i, c);
    }
}

/// Any other choice of one brand and capacity is no better.
proof fn lemma_others(
    candidates: Seq<Candidate>,
    requested: Seq<char>,
    count: int,
    draw: Draw,
    others: Seq<Candidate>,
)
    requires
        count > 0,
        choice(others, candidates, requested, count),
        alike(others),
    ensures
        ({
            let found = type_matches(candidates, requested);
            picked(found, count, draw) matches Some((cells, mixed)) && !mixed && match draw {
                Draw::Low => scores(cells) * per(others[0]) <= scores(others) * per(cells[0]),
                Draw::High => scores(cells) * per(others[0]) >= scores(others) * per(cells[0]),
            }
        }),
{
    broadcast use group_to_multiset_ensures;

    let found = type_matches(candidates, requested);
    let n = found.len() as int;
    lemma_within(others, candidates, requested);
    let c = others[0];
    assert(others.contains(c));
    assert(others.to_multiset().count(c) > 0);
    assert(found.to_multiset().count(c) > 0);
    let j = found.index_of(c);
    lemma_opener(found, j);
    let i = choose|i: int|
        0 <= i <= j && #[trigger] opens_bucket(found, i) && bucket_test(found[j]).holds(found[i]);
    lemma_same_bucket(found, found, i, j);
    let group = bucket(found, i);
    lemma_kept_counts(bucket_test(found[i]), found);
    assert(others.to_multiset().subset_of(group.to_multiset())) by {
        assert forall|x: Candidate|
            others.to_multiset().count(x) <= #[trigger] group.to_multiset().count(x) by {
            assert(others.to_multiset().count(x) <= found.to_multiset().count(x));
            if others.to_multiset().count(x) > 0 {
                let k = others.index_of(x);
                assert(others[k].battery.brand@ == others[0].battery.brand@);
                assert(bucket_test(found[i]).holds(x));
            }
        }
    }
    lemma_subset_len(others.to_multiset(), group.to_multiset());
    lemma_ranked(group, draw);
    lemma_ranked_bucket(found, i, draw);
    let r = ranked(group, draw);
    assert forall|a: int, b: int| 0 <= a < b < r.len() implies no_better(
        #[trigger] r[a],
        #[trigger] r[b],
        draw,
    ) by {
        assert(bucket_test(found[i]).holds(r[a]) && bucket_test(found[i]).holds(r[b]));
        lemma_score(r[a]);
        assert(per(r[a]) == per(r[b]));
        let p = per(r[a]);
        let x = score(r[a]);
        let y = score(r[b]);
        assert((x * p <= y * p) ==> x <= y) by (nonlinear_arith)
            requires
                p > 0,
        ;
        assert((x * p >= y * p) ==> x >= y) by (nonlinear_arith)
            requires
                p > 0,
        ;
    }
    lemma_first_are_best(r, others, draw);
    lemma_best_is_best(found, n, count, draw, i);
    let k = best_bucket(found, n, count, draw)->0;
    lemma_best_bucket(found, n, count, draw);
    lemma_ranked_bucket(found, k, draw);
    let cells = taken(found, k, count, draw);
    assert(bucket_test(found[k]).holds(ranked(bucket(found, k), draw)[0]));
    assert(per(cells[0]) == per(found[k]));
    assert(per(others[0]) == per(found[i]));
    lemma_score(found[k]);
    lemma_score(found[i]);
    let a = scores(cells);
    let b = scores(r.take(count));
    let o = scores(others);
    let p = per(found[k]);
    match draw {
        Draw::Low => {
            assert(b * p <= o * p) by (nonlinear_arith)
                requires
                    p > 0,
                    b <= o,
            ;
        },
        Draw::High => {
            assert(b * p >= o * p) by (nonlinear_arith)
                requires
                    p > 0,
                    b >= o,
            ;
        },
    }
}

} // verus!
