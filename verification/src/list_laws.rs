//! What the list shows, told of the batteries and their readings.

use vstd::prelude::*;
use crate::config::value_of;
use crate::db::Db;
use crate::dict::Dict;
use crate::health::{retention_of, with_resistance};
use crate::health_laws::{
    comes_before, has_resistance, is_latest, resistances_by_date, texts_are_in_dictionary_order,
};
use crate::matching_laws::{same_but_for_case, same_letter};
use crate::list::{
    counted, entries, entry_of, health_limit_of, page_size_of, sort_key, tally, whole_list, Entry,
    FiltersView, Flagged, ListOrder, ListPage,
};
use crate::order::{sorted_in_order, sorted_keeps_all, sorted_same_members, Order};
use crate::reads::{filtered, like, listed, passes, readings};
use crate::rows::{Battery, Measurement};
use crate::select::{kept, lemma_kept_count, lemma_none_count, lemma_push_count, Test};
use crate::text::{int_text, text_lt};
use crate::view::{limit_set, over_limit};

verus! {

// ── Which batteries are listed ──────────────────────────────────────────

/// A battery that needs looking at: its health is known and below the limit, or
/// the last resistance that was read is at or above the limit for its type.
pub open spec fn needs_looking(b: Battery, db: Db, env: Dict<String>) -> bool {
    let ms = readings(db.measurements@, b.id);
    ||| exists|r: i64| #[trigger]
        retention_of(b.nominal_mah, ms) == Some(r) && r < value_of(db@.settings, env, "health_limit_pct"@).number()
    ||| exists|m: Measurement, limit: i64|
        #![trigger m.ir_mohm, limit_is(b, db, env, limit)]
        is_latest(m, ms, |m: Measurement| has_resistance(m)) && limit_is(b, db, env, limit)
            && m.ir_mohm->0 >= limit
}

pub open spec fn limit_is(b: Battery, db: Db, env: Dict<String>, limit: i64) -> bool {
    limit_set(b.cell_type@, db@.settings, env) == Some(limit)
}

/// Whether every reading has a number of its own.
pub open spec fn no_number_twice(rows: Seq<Measurement>) -> bool {
    forall|i: int, j: int|
        0 <= i < j < rows.len() ==> (#[trigger] rows[i]).id != (#[trigger] rows[j]).id
}

/// Whether a battery is on the list that some filters ask for.
pub open spec fn wanted(b: Battery, db: Db, env: Dict<String>, f: FiltersView) -> bool {
    let pattern = "%"@ + f.search + "%"@;
    &&& f.show == "active"@ ==> b.deleted_at is None
    &&& f.show == "deleted"@ ==> b.deleted_at is Some
    &&& f.show == "flagged"@ ==> b.deleted_at is None && needs_looking(b, db, env)
    &&& f.type_filter.len() == 0 || b.cell_type@ == f.type_filter
    &&& f.location_filter.len() == 0 || b.location@ == f.location_filter
    &&& f.search.len() == 0 || like(pattern, b.brand@) || like(pattern, b.notes@) || like(
        pattern,
        int_text(b.id as int),
    )
}

/// The list holds every battery that is wanted, as often as it is there, and
/// none that is not.
pub proof fn the_list_holds_what_is_wanted(
    db: Db,
    env: Dict<String>,
    f: FiltersView,
    e: Entry,
)
    requires
        no_number_twice(db.measurements@),
    ensures
        whole_list(db, env, f).to_multiset().count(e) == (if e == entry_of(e.battery, db, env)
            && wanted(e.battery, db, env, f) {
            db.batteries@.to_multiset().count(e.battery)
        } else {
            0
        }),
{
    let b = e.battery;
    let flagged = f.show == "flagged"@;
    let show = if flagged {
        "active"@
    } else {
        f.show
    };
    lemma_words();
    let all = entries(db, env, f.type_filter, f.location_filter, f.search, show);
    let rows = listed(
        db.batteries@,
        f.type_filter,
        f.location_filter,
        f.search,
        show,
        "id"@,
    );
    lemma_entry_count(rows, db, env, e);
    let some = filtered(db.batteries@, f.type_filter, f.location_filter, f.search, show);
    sorted_keeps_all(crate::reads::sort_by("id"@), some);
    lemma_filtered_count(db.batteries@, f.type_filter, f.location_filter, f.search, show, b);
    let flag = Flagged { health_limit: health_limit_of(db, env) };
    lemma_flag(b, db, env, flag);
    lemma_kept_count(flag, all, e);
    let picked = if flagged {
        kept(flag, all)
    } else {
        all
    };
    sorted_keeps_all(ListOrder { key: sort_key(f.sort) }, picked);
}

/// A battery whose health is below the limit is listed among the flagged.
pub proof fn low_health_is_flagged(db: Db, env: Dict<String>, f: FiltersView, b: Battery, r: i64)
    requires
        no_number_twice(db.measurements@),
        f.show == "flagged"@,
        db.batteries@.contains(b),
        wanted(b, db, env, (FiltersView { show: "active"@, ..f })),
        retention_of(b.nominal_mah, readings(db.measurements@, b.id)) == Some(r),
        r < value_of(db@.settings, env, "health_limit_pct"@).number(),
    ensures
        whole_list(db, env, f).contains(entry_of(b, db, env)),
{
    broadcast use vstd::seq_lib::group_to_multiset_ensures;

    lemma_words();
    the_list_holds_what_is_wanted(db, env, f, entry_of(b, db, env));
    assert(db.batteries@.to_multiset().count(b) > 0);
}

/// So is one whose latest resistance reaches the limit for its type.
pub proof fn high_resistance_is_flagged(
    db: Db,
    env: Dict<String>,
    f: FiltersView,
    b: Battery,
    m: Measurement,
    limit: i64,
)
    requires
        no_number_twice(db.measurements@),
        f.show == "flagged"@,
        db.batteries@.contains(b),
        wanted(b, db, env, (FiltersView { show: "active"@, ..f })),
        is_latest(
            m,
            readings(db.measurements@, b.id),
            |m: Measurement| has_resistance(m),
        ),
        limit_set(b.cell_type@, db@.settings, env) == Some(limit),
        m.ir_mohm->0 >= limit,
    ensures
        whole_list(db, env, f).contains(entry_of(b, db, env)),
{
    broadcast use vstd::seq_lib::group_to_multiset_ensures;

    lemma_words();
    assert(limit_is(b, db, env, limit));
    the_list_holds_what_is_wanted(db, env, f, entry_of(b, db, env));
    assert(db.batteries@.to_multiset().count(b) > 0);
}

proof fn lemma_words()
    ensures
        "active"@ != "deleted"@,
        "active"@ != "flagged"@,
        "deleted"@ != "flagged"@,
{
    reveal_strlit("active");
    reveal_strlit("deleted");
    reveal_strlit("flagged");
    assert("active"@[0] == 'a' && "deleted"@[0] == 'd' && "flagged"@[0] == 'f');
}

proof fn lemma_flag(b: Battery, db: Db, env: Dict<String>, flag: Flagged)
    requires
        no_number_twice(db.measurements@),
        flag.health_limit == health_limit_of(db, env),
    ensures
        flag.holds(entry_of(b, db, env)) == needs_looking(b, db, env),
{
    let ms = readings(db.measurements@, b.id);
    let p = |m: Measurement| has_resistance(m);
    resistances_by_date(ms);
    let found = with_resistance(ms);
    if over_limit(ms, limit_set(b.cell_type@, db@.settings, env)) {
        let m = found.last();
        let limit = limit_set(b.cell_type@, db@.settings, env)->0;
        assert(is_latest(m, ms, p));
        assert(p(m));
        assert(limit_is(b, db, env, limit));
        assert(m.ir_mohm->0 >= limit);
    }
    if let Some(r) = retention_of(b.nominal_mah, ms) {
        if r < value_of(db@.settings, env, "health_limit_pct"@).number() {
            assert(retention_of(b.nominal_mah, ms) == Some(r));
        }
    }
    if needs_looking(b, db, env) && !(exists|r: i64| #[trigger]
        retention_of(b.nominal_mah, ms) == Some(r) && r < value_of(db@.settings, env, "health_limit_pct"@).number()) {
        let (m, limit) = choose|m: Measurement, limit: i64|
            #![trigger m.ir_mohm, limit_is(b, db, env, limit)]
            is_latest(m, ms, |m: Measurement| has_resistance(m)) && limit_is(b, db, env, limit)
                && m.ir_mohm->0 >= limit;
        assert(p(m) && ms.contains(m));
        let l = found.last();
        assert(p(l) && ms.contains(l));
        lemma_both_latest(m, l);
        lemma_own_row(db.measurements@, b.id, m);
        lemma_own_row(db.measurements@, b.id, l);
    }
}

proof fn lemma_own_row(rows: Seq<Measurement>, id: i64, m: Measurement)
    requires
        readings(rows, id).contains(m),
    ensures
        rows.contains(m),
{
    let p = crate::reads::OfBattery { battery_id: id };
    sorted_same_members(crate::reads::Newest, kept::<Measurement, _>(p, rows));
    crate::select::kept_members::<Measurement, _>(p, rows);
}

/// Two readings that are both the latest say the same of when they were taken.
proof fn lemma_both_latest(a: Measurement, b: Measurement)
    requires
        crate::health_laws::no_later(a, b),
        crate::health_laws::no_later(b, a),
    ensures
        a.measured_at@ == b.measured_at@,
        a.id == b.id,
{
    texts_are_in_dictionary_order(a.measured_at@, b.measured_at@);
    texts_are_in_dictionary_order(b.measured_at@, a.measured_at@);
    crate::text::lemma_text_lt_total(a.measured_at@, b.measured_at@);
    crate::text::lemma_text_lt_irreflexive(a.measured_at@);
}

proof fn lemma_entry_count(rows: Seq<Battery>, db: Db, env: Dict<String>, e: Entry)
    ensures
        rows.map_values(|b: Battery| entry_of(b, db, env)).to_multiset().count(e) == (if e
            == entry_of(e.battery, db, env) {
            rows.to_multiset().count(e.battery)
        } else {
            0
        }),
    decreases rows.len(),
{
    let g = |b: Battery| entry_of(b, db, env);
    let all = rows.map_values(g);
    if rows.len() > 0 {
        let d = rows.drop_last();
        lemma_entry_count(d, db, env, e);
        assert(rows =~= d.push(rows.last()));
        assert(all =~= d.map_values(g).push(g(rows.last())));
        lemma_push_count(d, rows.last(), e.battery);
        lemma_push_count(d.map_values(g), g(rows.last()), e);
    } else {
        lemma_none_count(rows, e.battery);
        lemma_none_count(all, e);
    }
}

proof fn lemma_filtered_count(
    rows: Seq<Battery>,
    type_filter: Seq<char>,
    location_filter: Seq<char>,
    search: Seq<char>,
    show: Seq<char>,
    b: Battery,
)
    ensures
        filtered(rows, type_filter, location_filter, search, show).to_multiset().count(b) == (
        if passes(b, type_filter, location_filter, search, show) {
            rows.to_multiset().count(b)
        } else {
            0
        }),
    decreases rows.len(),
{
    if rows.len() > 0 {
        let d = rows.drop_last();
        lemma_filtered_count(d, type_filter, location_filter, search, show, b);
        assert(rows =~= d.push(rows.last()));
        lemma_push_count(d, rows.last(), b);
        lemma_push_count(
            filtered(d, type_filter, location_filter, search, show),
            rows.last(),
            b,
        );
    } else {
        lemma_none_count(rows, b);
    }
}

// ── Searching ───────────────────────────────────────────────────────────

/// Whether a word stands in a text, whatever the case of its letters.
pub open spec fn stands_in(word: Seq<char>, text: Seq<char>) -> bool {
    exists|k: int|
        0 <= k && k + word.len() <= text.len() && same_but_for_case(
            word,
            #[trigger] text.subrange(k, k + word.len() as int),
        )
}

/// Searching for a word without wildcards finds the texts that it stands in.
pub proof fn searching_finds_the_word(word: Seq<char>, text: Seq<char>)
    requires
        !word.contains('%'),
        !word.contains('_'),
    ensures
        like("%"@ + word + "%"@, text) <==> stands_in(word, text),
{
    reveal_strlit("%");
    let pattern = "%"@ + word + "%"@;
    let rest = word.push('%');
    assert(pattern.skip(1) =~= rest);
    assert(pattern[0] == '%');
    crate::reads::lemma_any(pattern, text, 0);
    assert(text.skip(0) =~= text);
    if like(pattern, text) {
        let k = if like(rest, text.skip(0)) {
            0
        } else {
            choose|k: int| 0 < k <= text.len() && #[trigger] like(rest, text.skip(k))
        };
        lemma_word(word, text.skip(k));
        assert(text.skip(k).take(word.len() as int) =~= text.subrange(k, k + word.len() as int));
    }
    if stands_in(word, text) {
        let k = choose|k: int|
            0 <= k && k + word.len() <= text.len() && same_but_for_case(
                word,
                #[trigger] text.subrange(k, k + word.len() as int),
            );
        lemma_word(word, text.skip(k));
        assert(text.skip(k).take(word.len() as int) =~= text.subrange(k, k + word.len() as int));
        if k > 0 {
            assert(crate::reads::fits_later(rest, text, 0));
        }
    }
}

proof fn lemma_word(word: Seq<char>, text: Seq<char>)
    requires
        !word.contains('%'),
        !word.contains('_'),
    ensures
        like(word.push('%'), text) <==> word.len() <= text.len() && same_but_for_case(
            word,
            text.take(word.len() as int),
        ),
    decreases word.len(),
{
    let p = word.push('%');
    if word.len() == 0 {
        lemma_anything(text);
        assert(p =~= seq!['%']);
    } else {
        let w = word.skip(1);
        assert(p[0] == word[0]);
        assert(p.skip(1) =~= w.push('%'));
        assert(word.contains(word[0]));
        assert forall|c: char| w.contains(c) implies word.contains(c) by {
            let i = w.index_of(c);
            assert(word[i + 1] == c);
        }
        if text.len() > 0 {
            let t = text.skip(1);
            lemma_word(w, t);
            let n = word.len() as int;
            let x = text.take(n);
            let y = t.take(n - 1);
            if n <= text.len() {
                if same_but_for_case(word, x) {
                    assert(same_letter(word[0], x[0]));
                    assert forall|i: int| 0 <= i < w.len() implies same_letter(
                        #[trigger] w[i],
                        y[i],
                    ) by {
                        assert(same_letter(word[i + 1], x[i + 1]));
                    }
                }
                if same_letter(word[0], text[0]) && same_but_for_case(w, y) {
                    assert forall|i: int| 0 <= i < word.len() implies same_letter(
                        #[trigger] word[i],
                        x[i],
                    ) by {
                        if i > 0 {
                            assert(same_letter(w[i - 1], y[i - 1]));
                        }
                    }
                }
            }
        }
    }
}

proof fn lemma_anything(text: Seq<char>)
    ensures
        like(seq!['%'], text),
    decreases text.len(),
{
    reveal_with_fuel(like, 2);
    if text.len() > 0 {
        lemma_anything(text.skip(1));
    } else {
        assert(seq!['%'].skip(1) =~= Seq::<char>::empty());
    }
}

/// In what is searched for a `%` stands for any characters, a `_` for any one, and
/// every other character for itself in either case.
pub proof fn a_wildcard_stands_for_anything(c: char, rest: Seq<char>, text: Seq<char>)
    ensures
        like(Seq::empty(), text) <==> text.len() == 0,
        like(seq!['%'] + rest, text) <==> exists|k: int|
            0 <= k <= text.len() && #[trigger] like(rest, text.skip(k)),
        like(seq!['_'] + rest, text) <==> text.len() > 0 && like(rest, text.skip(1)),
        c != '%' && c != '_' ==> (like(seq![c] + rest, text) <==> text.len() > 0 && same_letter(
            c,
            text[0],
        ) && like(rest, text.skip(1))),
{
    let any = seq!['%'] + rest;
    let one = seq!['_'] + rest;
    let own = seq![c] + rest;
    assert(any.skip(1) =~= rest && one.skip(1) =~= rest && own.skip(1) =~= rest);
    assert(any[0] == '%' && one[0] == '_' && own[0] == c);
    crate::reads::lemma_any(any, text, 0);
    assert(text.skip(0) =~= text);
    if crate::reads::fits_later(rest, text, 0) {
        let k = choose|k: int| 0 < k <= text.len() && #[trigger] like(rest, text.skip(k));
        assert(like(rest, text.skip(k)));
    }
    if like(rest, text) {
        assert(like(rest, text.skip(0)));
    }
}

// ── Order ───────────────────────────────────────────────────────────────

/// Whether one battery may stand before another: by the number, or by type or
/// place as in a dictionary and among equals by the number, or the worst health
/// or the highest resistance first and those of which it is not known last.
pub open spec fn may_precede(a: Battery, b: Battery, db: Db, env: Dict<String>, sort: Seq<char>) -> bool {
    let x = readings(db.measurements@, a.id);
    let y = readings(db.measurements@, b.id);
    if sort == "type"@ {
        comes_before(a.cell_type@, b.cell_type@) || (a.cell_type@ == b.cell_type@ && a.id <= b.id)
    } else if sort == "location"@ {
        comes_before(a.location@, b.location@) || (a.location@ == b.location@ && a.id <= b.id)
    } else if sort == "health"@ {
        match (retention_of(a.nominal_mah, x), retention_of(b.nominal_mah, y)) {
            (Some(p), Some(q)) => p <= q,
            (Some(_), None) => true,
            (None, Some(_)) => false,
            (None, None) => a.id <= b.id,
        }
    } else if sort == "resistance"@ {
        let p = with_resistance(x);
        let q = with_resistance(y);
        if p.len() > 0 && q.len() > 0 {
            p.last().ir_mohm->0 >= q.last().ir_mohm->0
        } else if p.len() > 0 || q.len() > 0 {
            p.len() > 0
        } else {
            a.id <= b.id
        }
    } else {
        a.id <= b.id
    }
}

/// The list is in the order that was asked for.
pub proof fn the_list_is_in_order(db: Db, env: Dict<String>, f: FiltersView, i: int, j: int)
    requires
        no_number_twice(db.measurements@),
        0 <= i < j < whole_list(db, env, f).len(),
    ensures
        may_precede(
            whole_list(db, env, f)[i].battery,
            whole_list(db, env, f)[j].battery,
            db,
            env,
            f.sort,
        ),
{
    broadcast use vstd::seq_lib::group_to_multiset_ensures;

    let list = whole_list(db, env, f);
    let flagged = f.show == "flagged"@;
    let all = entries(
        db,
        env,
        f.type_filter,
        f.location_filter,
        f.search,
        if flagged {
            "active"@
        } else {
            f.show
        },
    );
    let picked = if flagged {
        kept(Flagged { health_limit: health_limit_of(db, env) }, all)
    } else {
        all
    };
    let o = ListOrder { key: sort_key(f.sort) };
    sorted_in_order(o, picked);
    assert(o.le(list[i], list[j]));
    the_list_holds_what_is_wanted(db, env, f, list[i]);
    the_list_holds_what_is_wanted(db, env, f, list[j]);
    assert(list.contains(list[i]) && list.contains(list[j]));
    let a = list[i].battery;
    let b = list[j].battery;
    texts_are_in_dictionary_order(a.cell_type@, b.cell_type@);
    texts_are_in_dictionary_order(a.location@, b.location@);
    let x = readings(db.measurements@, a.id);
    let y = readings(db.measurements@, b.id);
    resistances_by_date(x);
    resistances_by_date(y);
    let p = |m: Measurement| has_resistance(m);
    if with_resistance(x).len() > 0 {
        assert(p(with_resistance(x).last()));
    }
    if with_resistance(y).len() > 0 {
        assert(p(with_resistance(y).last()));
    }
}

/// The readings of a battery are those rows that are its own.
pub proof fn readings_are_the_batterys_own(rows: Seq<Measurement>, id: i64, m: Measurement)
    ensures
        readings(rows, id).to_multiset().count(m) == (if m.battery_id == id {
            rows.to_multiset().count(m)
        } else {
            0
        }),
{
    let p = crate::reads::OfBattery { battery_id: id };
    sorted_keeps_all(crate::reads::Newest, kept::<Measurement, _>(p, rows));
    lemma_kept_count::<Measurement, _>(p, rows, m);
}

// ── Pages ───────────────────────────────────────────────────────────────

/// A page of the list: the one that was asked for, or the last. Its rows are
/// those of the list that lie on it, and the pages are as many as it takes.
pub proof fn a_page_is_a_part_of_the_list(
    p: ListPage,
    db: Db,
    env: Dict<String>,
    f: FiltersView,
    view: Seq<char>,
    asked: int,
)
    requires
        p.shows(db, env, f, view, asked),
        asked >= 1,
        whole_list(db, env, f).len() <= i64::MAX,
    ensures
        ({
            let list = whole_list(db, env, f);
            let size = page_size_of(db, env);
            &&& p.total == list.len()
            &&& 1 <= p.page <= p.pages
            &&& p.page == asked || (p.page == p.pages && asked > p.pages)
            &&& (p.pages - 1) * size < list.len() <= p.pages * size || (list.len() == 0 && p.pages
                == 1)
            &&& p.batteries@.len() <= size
            &&& p.page < p.pages ==> p.batteries@.len() == size
            &&& p.page == p.pages ==> (p.page - 1) * size + p.batteries@.len() == list.len()
            &&& p.last_row == (p.page - 1) * size + p.batteries@.len()
            &&& list.len() > 0 ==> p.first_row == (p.page - 1) * size + 1
            &&& list.len() == 0 ==> p.first_row == 0
            &&& forall|i: int|
                0 <= i < p.batteries@.len() ==> {
                    let b = list[(p.page - 1) * size + i].battery;
                    let row = #[trigger] p.batteries@[i];
                    &&& row.id == b.id
                    &&& row.cell_type@ == b.cell_type@
                    &&& row.brand@ == b.brand@
                    &&& row.location@ == b.location@
                    &&& row.nominal_mah == b.nominal_mah
                    &&& row.deleted_at == b.deleted_at
                    &&& row.has_health_pct == (retention_of(
                        b.nominal_mah,
                        readings(db.measurements@, b.id),
                    ) is Some)
                    &&& row.has_health_pct ==> retention_of(
                        b.nominal_mah,
                        readings(db.measurements@, b.id),
                    ) == Some(row.health_pct)
                }
        }),
{
    let list = whole_list(db, env, f);
    let size = page_size_of(db, env);
    let total = list.len() as int;
    if total > 0 {
        let q = (total - 1) / size;
        vstd::arithmetic::div_mod::lemma_fundamental_div_mod(total - 1, size);
        vstd::arithmetic::div_mod::lemma_div_pos_is_pos(total - 1, size);
        assert((p.pages - 1) * size < total <= p.pages * size) by (nonlinear_arith)
            requires
                p.pages - 1 == q,
                total - 1 == size * q + (total - 1) % size,
                0 <= (total - 1) % size < size,
        ;
        let page = p.page as int;
        let pages = p.pages as int;
        assert(page < pages ==> (page - 1) * size + size <= (pages - 1) * size) by (nonlinear_arith)
            requires
                size >= 1,
        ;
        assert(page == pages ==> (page - 1) * size + size == pages * size) by (nonlinear_arith);
    } else {
        assert((p.page - 1) * size == 0) by (nonlinear_arith)
            requires
                p.page == 1,
        ;
    }
}

// ── Counts ──────────────────────────────────────────────────────────────

/// How many batteries of a type are on a list.
pub open spec fn number_of(list: Seq<Entry>, name: Seq<char>) -> nat {
    list.filter(|e: Entry| e.battery.cell_type@ == name).len()
}

/// The counts above the list tell of every type on it how many there are, once
/// and in the order of a dictionary.
pub proof fn types_are_counted(list: Seq<Entry>)
    ensures
        forall|i: int|
            0 <= i < tally(list).len() ==> (#[trigger] tally(list)[i]).1 == number_of(
                list,
                tally(list)[i].0,
            ) && tally(list)[i].1 > 0,
        forall|i: int, j: int|
            0 <= i < j < tally(list).len() ==> comes_before(
                (#[trigger] tally(list)[i]).0,
                (#[trigger] tally(list)[j]).0,
            ),
        forall|name: Seq<char>| #[trigger]
            number_of(list, name) > 0 ==> exists|i: int|
                0 <= i < tally(list).len() && (#[trigger] tally(list)[i]).0 == name,
    decreases list.len(),
{
    reveal(Seq::filter);
    if list.len() > 0 {
        let d = list.drop_last();
        types_are_counted(d);
        let t = tally(d);
        let name = list.last().battery.cell_type@;
        let r = tally(list);
        assert forall|i: int, j: int| 0 <= i < j < t.len() implies text_lt(
            (#[trigger] t[i]).0,
            (#[trigger] t[j]).0,
        ) by {
            texts_are_in_dictionary_order(t[i].0, t[j].0);
        }
        lemma_counted(t, name);
        assert forall|n: Seq<char>| #[trigger]
            number_of(list, n) == number_of(d, n) + (if n == name {
                1nat
            } else {
                0
            }) by {
            let g = |e: Entry| e.battery.cell_type@ == n;
            assert(list.filter(g) == if g(list.last()) {
                d.filter(g).push(list.last())
            } else {
                d.filter(g)
            });
        }
        assert forall|i: int| 0 <= i < r.len() implies (#[trigger] r[i]).1 == number_of(
            list,
            r[i].0,
        ) && r[i].1 > 0 by {
            lemma_counted_at(t, name, i);
            assert(number_of(list, r[i].0) == number_of(d, r[i].0) + (if r[i].0 == name {
                1nat
            } else {
                0
            }));
            if exists|k: int| 0 <= k < t.len() && (#[trigger] t[k]).0 == r[i].0 {
                let k = choose|k: int| 0 <= k < t.len() && (#[trigger] t[k]).0 == r[i].0;
                assert(t[k].1 == number_of(d, t[k].0));
            } else {
                assert(number_of(d, r[i].0) == 0);
            }
        }
        assert forall|i: int, j: int| 0 <= i < j < r.len() implies comes_before(
            (#[trigger] r[i]).0,
            (#[trigger] r[j]).0,
        ) by {
            texts_are_in_dictionary_order(r[i].0, r[j].0);
        }
        assert forall|n: Seq<char>| #[trigger] number_of(list, n) > 0 implies exists|i: int|
            0 <= i < r.len() && (#[trigger] r[i]).0 == n by {
            assert(number_of(list, n) == number_of(d, n) + (if n == name {
                1nat
            } else {
                0
            }));
            lemma_counted_has(t, name, n);
        }
    } else {
        assert forall|n: Seq<char>| #[trigger] number_of(list, n) == 0 by {
            let g = |e: Entry| e.battery.cell_type@ == n;
            assert(list.filter(g).len() == 0);
        }
    }
}

/// Counting one more keeps the names in order.
proof fn lemma_counted(t: Seq<(Seq<char>, int)>, name: Seq<char>)
    requires
        forall|i: int, j: int|
            0 <= i < j < t.len() ==> text_lt((#[trigger] t[i]).0, (#[trigger] t[j]).0),
    ensures
        forall|i: int, j: int|
            0 <= i < j < counted(t, name).len() ==> text_lt(
                (#[trigger] counted(t, name)[i]).0,
                (#[trigger] counted(t, name)[j]).0,
            ),
        counted(t, name).len() > 0,
        counted(t, name)[0].0 == name || (t.len() > 0 && counted(t, name)[0].0 == t[0].0),
    decreases t.len(),
{
    let c = counted(t, name);
    if t.len() > 0 {
        let rest = t.skip(1);
        if t[0].0 == name {
            assert forall|i: int, j: int| 0 <= i < j < c.len() implies text_lt(
                (#[trigger] c[i]).0,
                (#[trigger] c[j]).0,
            ) by {
                assert(c[i].0 == t[i].0 && c[j].0 == t[j].0);
            }
        } else if text_lt(name, t[0].0) {
            assert forall|i: int, j: int| 0 <= i < j < c.len() implies text_lt(
                (#[trigger] c[i]).0,
                (#[trigger] c[j]).0,
            ) by {
                assert(c[j] == t[j - 1]);
                if i > 0 {
                    assert(c[i] == t[i - 1]);
                } else if j > 1 {
                    crate::text::lemma_text_lt_trans(name, t[0].0, t[j - 1].0);
                }
            }
        } else {
            assert forall|i: int, j: int| 0 <= i < j < rest.len() implies text_lt(
                (#[trigger] rest[i]).0,
                (#[trigger] rest[j]).0,
            ) by {
                assert(text_lt(t[i + 1].0, t[j + 1].0));
            }
            lemma_counted(rest, name);
            let q = counted(rest, name);
            crate::text::lemma_text_lt_total(name, t[0].0);
            assert(text_lt(t[0].0, q[0].0)) by {
                if q[0].0 != name {
                    assert(text_lt(t[0].0, t[1].0));
                }
            }
            assert forall|i: int, j: int| 0 <= i < j < c.len() implies text_lt(
                (#[trigger] c[i]).0,
                (#[trigger] c[j]).0,
            ) by {
                assert(c[j] == q[j - 1]);
                if i > 0 {
                    assert(c[i] == q[i - 1]);
                } else if j > 1 {
                    assert(text_lt(q[0].0, q[j - 1].0));
                    crate::text::lemma_text_lt_trans(t[0].0, q[0].0, q[j - 1].0);
                }
            }
        }
    }
}

/// Every count is the one before, or one more for the name that is counted.
proof fn lemma_counted_at(t: Seq<(Seq<char>, int)>, name: Seq<char>, i: int)
    requires
        0 <= i < counted(t, name).len(),
        forall|i: int, j: int|
            0 <= i < j < t.len() ==> text_lt((#[trigger] t[i]).0, (#[trigger] t[j]).0),
    ensures
        ({
            let x = counted(t, name)[i];
            ||| x == (name, 1int) && forall|k: int| 0 <= k < t.len() ==> (#[trigger] t[k]).0 != name
            ||| exists|k: int|
                0 <= k < t.len() && (#[trigger] t[k]).0 == x.0 && x.1 == t[k].1 + (if x.0 == name {
                    1int
                } else {
                    0
                })
        }),
    decreases t.len(),
{
    let c = counted(t, name);
    if t.len() > 0 {
        let rest = t.skip(1);
        crate::text::lemma_text_lt_irreflexive(name);
        if t[0].0 == name {
            assert(c[i].0 == t[i].0);
            if i > 0 {
                assert(text_lt(t[0].0, t[i].0));
            }
        } else if text_lt(name, t[0].0) {
            if i > 0 {
                assert(c[i] == t[i - 1]);
                if t[i - 1].0 == name {
                    crate::text::lemma_text_lt_total(name, t[0].0);
                    if i > 1 {
                        assert(text_lt(t[0].0, t[i - 1].0));
                    }
                }
            } else {
                assert forall|k: int| 0 <= k < t.len() implies (#[trigger] t[k]).0 != name by {
                    if k > 0 {
                        assert(text_lt(t[0].0, t[k].0));
                        crate::text::lemma_text_lt_trans(name, t[0].0, t[k].0);
                    }
                }
            }
        } else {
            assert forall|i: int, j: int| 0 <= i < j < rest.len() implies text_lt(
                (#[trigger] rest[i]).0,
                (#[trigger] rest[j]).0,
            ) by {
                assert(text_lt(t[i + 1].0, t[j + 1].0));
            }
            if i > 0 {
                lemma_counted_at(rest, name, i - 1);
                assert(c[i] == counted(rest, name)[i - 1]);
                if exists|k: int|
                    0 <= k < rest.len() && (#[trigger] rest[k]).0 == c[i].0 && c[i].1 == rest[k].1
                        + (if c[i].0 == name {
                        1int
                    } else {
                        0
                    }) {
                    let k = choose|k: int|
                        0 <= k < rest.len() && (#[trigger] rest[k]).0 == c[i].0 && c[i].1
                            == rest[k].1 + (if c[i].0 == name {
                            1int
                        } else {
                            0
                        });
                    assert(t[k + 1] == rest[k]);
                } else {
                    assert forall|k: int| 0 <= k < t.len() implies (#[trigger] t[k]).0 != name by {
                        if k > 0 {
                            assert(rest[k - 1] == t[k]);
                        }
                    }
                }
            } else {
                assert(c[0] == t[0]);
            }
        }
    }
}

/// Whatever was counted before is still there, and so is the name.
proof fn lemma_counted_has(t: Seq<(Seq<char>, int)>, name: Seq<char>, n: Seq<char>)
    requires
        n == name || exists|k: int| 0 <= k < t.len() && (#[trigger] t[k]).0 == n,
    ensures
        exists|i: int| 0 <= i < counted(t, name).len() && (#[trigger] counted(t, name)[i]).0 == n,
    decreases t.len(),
{
    let c = counted(t, name);
    if t.len() == 0 {
        assert(c[0].0 == n);
    } else {
        let rest = t.skip(1);
        if t[0].0 == name {
            assert(c[0].0 == name);
            if n != name {
                let k = choose|k: int| 0 <= k < t.len() && (#[trigger] t[k]).0 == n;
                assert(c[k].0 == n);
            }
        } else if text_lt(name, t[0].0) {
            assert(c[0].0 == name);
            if n != name {
                let k = choose|k: int| 0 <= k < t.len() && (#[trigger] t[k]).0 == n;
                assert(c[k + 1].0 == n);
            }
        } else {
            assert(c[0] == t[0]);
            if n != t[0].0 {
                if n != name {
                    let k = choose|k: int| 0 <= k < t.len() && (#[trigger] t[k]).0 == n;
                    assert(rest[k - 1].0 == n);
                }
                lemma_counted_has(rest, name, n);
                let i = choose|i: int|
                    0 <= i < counted(rest, name).len() && (#[trigger] counted(rest, name)[i]).0
                        == n;
                assert(c[i + 1].0 == n);
            }
        }
    }
}

} // verus!
