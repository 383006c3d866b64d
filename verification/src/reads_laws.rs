//! What the answers of the tables say, told of their rows alone.

use vstd::prelude::*;
use crate::health_laws::{comes_before, no_later, texts_are_in_dictionary_order};
use crate::list_laws::{searching_finds_the_word, stands_in};
use crate::order::{
    sorted, sorted_in_order, sorted_keeps_all, sorted_same_members, Alphabetical, Ascending, Order,
};
use crate::reads::{
    by_use, column_named, filtered, highest_is_highest, in_column, latest_by_instrument,
    lemma_by_use, lemma_columns, listed, modes_of, moves, next_number, number_above, number_below,
    numbers_among, passes, readings, seen, sort_by, uses, values_in, window, ByPosition, ByUse,
    Column, Newest, OfBattery, OfInstrument,
};
use crate::rows::{Battery, LocationEntry, Measurement, Mode};
use crate::select::{kept, lemma_kept_count};
use crate::text::int_text;

verus! {

// ── Numbers ─────────────────────────────────────────────────────────────

/// The next number is above all that are taken, and right behind one of them;
/// the first is 1.
pub proof fn the_next_number_follows_the_highest(rows: Seq<Battery>, n: i64)
    requires
        next_number(rows) == Some(n),
    ensures
        forall|i: int| 0 <= i < rows.len() ==> (#[trigger] rows[i]).id < n,
        rows.len() == 0 ==> n == 1,
        rows.len() > 0 ==> exists|i: int| 0 <= i < rows.len() && (#[trigger] rows[i]).id + 1 == n,
{
    highest_is_highest(rows);
    if rows.len() > 0 {
        let h = (n - 1) as i64;
        crate::db::lemma_has(rows, h);
        let i = choose|i: int| 0 <= i < rows.len() && (#[trigger] rows[i]).id == h;
        assert(rows[i].id + 1 == n);
    }
}

/// There is no next number only where the last one is taken.
pub proof fn numbers_do_not_run_out(rows: Seq<Battery>)
    ensures
        next_number(rows) is None <==> exists|i: int|
            0 <= i < rows.len() && (#[trigger] rows[i]).id == i64::MAX,
{
    highest_is_highest(rows);
    if next_number(rows) is None {
        crate::db::lemma_has(rows, i64::MAX);
    }
}

/// The number before one is taken and smaller, and none that is taken lies
/// between them; where there is none, no taken number is smaller.
pub proof fn the_number_before_is_the_nearest(rows: Seq<Battery>, id: i64)
    ensures
        match number_below(rows, id) {
            Some(n) => {
                &&& n < id
                &&& exists|i: int| 0 <= i < rows.len() && (#[trigger] rows[i]).id == n
                &&& forall|i: int|
                    0 <= i < rows.len() ==> (#[trigger] rows[i]).id <= n || rows[i].id >= id
            },
            None => forall|i: int| 0 <= i < rows.len() ==> (#[trigger] rows[i]).id >= id,
        },
    decreases rows.len(),
{
    if rows.len() > 0 {
        let d = rows.drop_last();
        the_number_before_is_the_nearest(d, id);
        assert forall|i: int| 0 <= i < rows.len() - 1 implies #[trigger] rows[i] == d[i] by {}
        assert(rows[rows.len() - 1] == rows.last());
        if let Some(n) = number_below(rows, id) {
            if n != rows.last().id {
                let i = choose|i: int| 0 <= i < d.len() && (#[trigger] d[i]).id == n;
                assert(rows[i].id == n);
            }
        }
    }
}

/// The number after one is taken and greater, and none that is taken lies
/// between them; where there is none, no taken number is greater.
pub proof fn the_number_after_is_the_nearest(rows: Seq<Battery>, id: i64)
    ensures
        match number_above(rows, id) {
            Some(n) => {
                &&& n > id
                &&& exists|i: int| 0 <= i < rows.len() && (#[trigger] rows[i]).id == n
                &&& forall|i: int|
                    0 <= i < rows.len() ==> (#[trigger] rows[i]).id >= n || rows[i].id <= id
            },
            None => forall|i: int| 0 <= i < rows.len() ==> (#[trigger] rows[i]).id <= id,
        },
    decreases rows.len(),
{
    if rows.len() > 0 {
        let d = rows.drop_last();
        the_number_after_is_the_nearest(d, id);
        assert forall|i: int| 0 <= i < rows.len() - 1 implies #[trigger] rows[i] == d[i] by {}
        assert(rows[rows.len() - 1] == rows.last());
        if let Some(n) = number_above(rows, id) {
            if n != rows.last().id {
                let i = choose|i: int| 0 <= i < d.len() && (#[trigger] d[i]).id == n;
                assert(rows[i].id == n);
            }
        }
    }
}

/// The numbers in use are those of the given ones that a battery has, in
/// ascending order.
pub proof fn the_numbers_in_use_are_taken(rows: Seq<Battery>, ids: Seq<i64>, n: i64)
    ensures
        sorted(Ascending, numbers_among(rows, ids)).contains(n) <==> ids.contains(n) && exists|
            i: int,
        |
            0 <= i < rows.len() && (#[trigger] rows[i]).id == n,
        forall|i: int, j: int|
            0 <= i < j < sorted(Ascending, numbers_among(rows, ids)).len() ==> #[trigger] sorted(
                Ascending,
                numbers_among(rows, ids),
            )[i] <= #[trigger] sorted(Ascending, numbers_among(rows, ids))[j],
{
    let s = sorted(Ascending, numbers_among(rows, ids));
    lemma_among(rows, ids, n);
    sorted_same_members(Ascending, numbers_among(rows, ids));
    sorted_in_order(Ascending, numbers_among(rows, ids));
    assert forall|i: int, j: int| 0 <= i < j < s.len() implies #[trigger] s[i]
        <= #[trigger] s[j] by {
        assert(Ascending.le(s[i], s[j]));
    }
}

proof fn lemma_among(rows: Seq<Battery>, ids: Seq<i64>, n: i64)
    ensures
        numbers_among(rows, ids).contains(n) <==> ids.contains(n) && exists|i: int|
            0 <= i < rows.len() && (#[trigger] rows[i]).id == n,
    decreases rows.len(),
{
    if rows.len() > 0 {
        let d = rows.drop_last();
        lemma_among(d, ids, n);
        let before = numbers_among(d, ids);
        let all = numbers_among(rows, ids);
        assert(rows[rows.len() - 1] == rows.last());
        if before.contains(n) {
            let k = before.index_of(n);
            assert(all[k] == n);
            let i = choose|i: int| 0 <= i < d.len() && (#[trigger] d[i]).id == n;
            assert(rows[i].id == n);
        }
        if ids.contains(rows.last().id) {
            assert(all[all.len() - 1] == rows.last().id);
        }
        if all.contains(n) && !before.contains(n) {
            let k = all.index_of(n);
            if k < before.len() {
                assert(before[k] == n);
            }
        }
        if ids.contains(n) && exists|i: int| 0 <= i < rows.len() && (#[trigger] rows[i]).id == n {
            let i = choose|i: int| 0 <= i < rows.len() && (#[trigger] rows[i]).id == n;
            if i < d.len() {
                assert(d[i].id == n);
            }
        }
    }
}

// ── Lists ───────────────────────────────────────────────────────────────

/// Whether a battery is asked for: deleted or not as asked, of the type and in
/// the place if one is given, and with the word in its brand, its notes or its
/// number if there is one.
pub open spec fn asked_for(
    b: Battery,
    type_filter: Seq<char>,
    location_filter: Seq<char>,
    search: Seq<char>,
    show: Seq<char>,
) -> bool {
    &&& show == "active"@ ==> b.deleted_at is None
    &&& show == "deleted"@ ==> b.deleted_at is Some
    &&& type_filter.len() == 0 || b.cell_type@ == type_filter
    &&& location_filter.len() == 0 || b.location@ == location_filter
    &&& search.len() == 0 || stands_in(search, b.brand@) || stands_in(search, b.notes@)
        || stands_in(search, int_text(b.id as int))
}

/// The batteries that are listed are those that are asked for, every one as
/// often as it is in the table. A word that is searched for has no wildcards
/// here.
pub proof fn what_is_asked_for_is_listed(
    rows: Seq<Battery>,
    type_filter: Seq<char>,
    location_filter: Seq<char>,
    search: Seq<char>,
    show: Seq<char>,
    sort: Seq<char>,
    b: Battery,
)
    requires
        !search.contains('%'),
        !search.contains('_'),
    ensures
        listed(rows, type_filter, location_filter, search, show, sort).to_multiset().count(b) == (
        if asked_for(b, type_filter, location_filter, search, show) {
            rows.to_multiset().count(b)
        } else {
            0
        }),
{
    searching_finds_the_word(search, b.brand@);
    searching_finds_the_word(search, b.notes@);
    searching_finds_the_word(search, int_text(b.id as int));
    reveal_strlit("active");
    reveal_strlit("deleted");
    assert("active"@.len() == 6);
    assert("deleted"@.len() == 7);
    let found = filtered(rows, type_filter, location_filter, search, show);
    sorted_keeps_all(sort_by(sort), found);
    lemma_filtered_count(rows, type_filter, location_filter, search, show, b);
}

proof fn lemma_filtered_count(
    rows: Seq<Battery>,
    type_filter: Seq<char>,
    location_filter: Seq<char>,
    search: Seq<char>,
    show: Seq<char>,
    b: Battery,
)
    ensures
        filtered(rows, type_filter, location_filter, search, show).to_multiset().count(b) == (
        if passes(b, type_filter, location_filter, search, show) {
            rows.to_multiset().count(b)
        } else {
            0
        }),
    decreases rows.len(),
{
    if rows.len() == 0 {
        crate::select::lemma_none_count(rows, b);
    } else {
        let d = rows.drop_last();
        lemma_filtered_count(d, type_filter, location_filter, search, show, b);
        crate::select::lemma_push_count(d, rows.last(), b);
        assert(rows =~= d.push(rows.last()));
        crate::select::lemma_push_count(
            filtered(d, type_filter, location_filter, search, show),
            rows.last(),
            b,
        );
    }
}

/// A list of batteries goes by the type or the place as in a dictionary where
/// that is asked for, and among equals and otherwise by the number.
pub proof fn batteries_are_listed_in_order(
    rows: Seq<Battery>,
    type_filter: Seq<char>,
    location_filter: Seq<char>,
    search: Seq<char>,
    show: Seq<char>,
    sort: Seq<char>,
    i: int,
    j: int,
)
    requires
        0 <= i < j < listed(rows, type_filter, location_filter, search, show, sort).len(),
    ensures
        ({
            let all = listed(rows, type_filter, location_filter, search, show, sort);
            if sort == "type"@ {
                comes_before(all[i].cell_type@, all[j].cell_type@) || (all[i].cell_type@
                    == all[j].cell_type@ && all[i].id <= all[j].id)
            } else if sort == "location"@ {
                comes_before(all[i].location@, all[j].location@) || (all[i].location@
                    == all[j].location@ && all[i].id <= all[j].id)
            } else {
                all[i].id <= all[j].id
            }
        }),
{
    let all = listed(rows, type_filter, location_filter, search, show, sort);
    let o = sort_by(sort);
    sorted_in_order(o, filtered(rows, type_filter, location_filter, search, show));
    assert(o.le(all[i], all[j]));
    reveal_strlit("type");
    reveal_strlit("location");
    assert("type"@.len() == 4);
    assert("location"@.len() == 8);
    texts_are_in_dictionary_order(all[i].cell_type@, all[j].cell_type@);
    texts_are_in_dictionary_order(all[i].location@, all[j].location@);
}

/// A window skips as many rows as it should, or all there are, and then shows as
/// many as it may, or all that are left.
pub proof fn a_window_shows_what_it_may(len: int, limit: i64, offset: i64)
    requires
        0 <= len,
        0 <= offset,
    ensures
        ({
            let (from, to) = window(len, limit, offset);
            &&& 0 <= from <= to <= len
            &&& from == offset || (offset > len && from == len)
            &&& limit < 0 ==> to == len
            &&& limit >= 0 ==> to - from <= limit && (to - from == limit || to == len)
        }),
{
}

// ── Columns ─────────────────────────────────────────────────────────────

/// What a battery has in a column, by the column's name.
pub open spec fn in_named(b: Battery, name: Seq<char>) -> Seq<char> {
    if name == "type"@ {
        b.cell_type@
    } else if name == "brand"@ {
        b.brand@
    } else {
        b.location@
    }
}

proof fn lemma_named(b: Battery, name: Seq<char>)
    requires
        name == "type"@ || name == "brand"@ || name == "location"@,
    ensures
        column_named(name) matches Some(c) && in_column(b, c)@ == in_named(b, name),
{
    lemma_columns();
    reveal_strlit("type");
    reveal_strlit("brand");
    reveal_strlit("location");
    assert("type"@[0] == 't' && "brand"@[0] == 'b' && "location"@[0] == 'l');
}

/// Whether a value is used: some battery that is not deleted has it.
pub open spec fn is_used(rows: Seq<Battery>, name: Seq<char>, v: Seq<char>) -> bool {
    exists|i: int|
        0 <= i < rows.len() && (#[trigger] rows[i]).deleted_at is None && in_named(rows[i], name)
            == v
}

/// The values of a column are those in use, but for the empty one.
pub proof fn the_values_are_those_in_use(rows: Seq<Battery>, name: Seq<char>, v: Seq<char>)
    requires
        name == "type"@ || name == "brand"@ || name == "location"@,
    ensures
        column_named(name) is Some,
        seen(sorted(Alphabetical, values_in(rows, column_named(name)->0, false)), v) <==> v.len()
            > 0 && is_used(rows, name, v),
{
    let values = values_in(rows, column_named(name)->0, false);
    lemma_columns();
    lemma_values(rows, name, false, v);
    lemma_sorted_seen(Alphabetical, values, v);
}

/// No value of a column is given twice, and they are in the order of a
/// dictionary.
pub proof fn every_value_is_given_once(rows: Seq<Battery>, name: Seq<char>, i: int, j: int)
    requires
        name == "type"@ || name == "brand"@ || name == "location"@,
        0 <= i < j < sorted(Alphabetical, values_in(rows, column_named(name)->0, false)).len(),
    ensures
        ({
            let s = sorted(Alphabetical, values_in(rows, column_named(name)->0, false));
            comes_before(s[i]@, s[j]@)
        }),
{
    let values = values_in(rows, column_named(name)->0, false);
    let s = sorted(Alphabetical, values);
    sorted_in_order(Alphabetical, values);
    assert(Alphabetical.le(s[i], s[j]));
    crate::text::lemma_text_lt_total(s[i]@, s[j]@);
    texts_are_in_dictionary_order(s[i]@, s[j]@);
    if s[i]@ == s[j]@ {
        lemma_once(rows, column_named(name)->0, false);
        lemma_sorted_once(Alphabetical, values, i, j);
    }
}

proof fn lemma_sorted_seen<O: Order<String>>(o: O, values: Seq<String>, v: Seq<char>)
    ensures
        seen(sorted(o, values), v) <==> seen(values, v),
{
    let s = sorted(o, values);
    sorted_same_members(o, values);
    if seen(s, v) {
        let i = choose|i: int| 0 <= i < s.len() && (#[trigger] s[i])@ == v;
        assert(s.contains(s[i]));
        let k = values.index_of(s[i]);
        assert(values[k]@ == v);
    }
    if seen(values, v) {
        let i = choose|i: int| 0 <= i < values.len() && (#[trigger] values[i])@ == v;
        assert(values.contains(values[i]));
        assert(s.contains(values[i]));
        let k = s.index_of(values[i]);
        assert(s[k]@ == v);
    }
}

proof fn lemma_once(rows: Seq<Battery>, c: Column, empty_too: bool)
    ensures
        forall|i: int, j: int|
            0 <= i < j < values_in(rows, c, empty_too).len() ==> (#[trigger] values_in(
                rows,
                c,
                empty_too,
            )[i])@ != (#[trigger] values_in(rows, c, empty_too)[j])@,
    decreases rows.len(),
{
    if rows.len() > 0 {
        let d = rows.drop_last();
        lemma_once(d, c, empty_too);
        let before = values_in(d, c, empty_too);
        let all = values_in(rows, c, empty_too);
        assert forall|i: int, j: int| 0 <= i < j < all.len() implies (#[trigger] all[i])@ != (
        #[trigger] all[j])@ by {
            assert(before[i] == all[i]);
            if j < before.len() {
                assert(before[j] == all[j]);
            }
        }
    }
}

/// Where two rows of a sorted list are equal, so are two of the list.
proof fn lemma_sorted_once<O: Order<String>>(o: O, values: Seq<String>, i: int, j: int)
    requires
        forall|x: int, y: int|
            0 <= x < y < values.len() ==> (#[trigger] values[x])@ != (#[trigger] values[y])@,
        0 <= i < j < sorted(o, values).len(),
    ensures
        sorted(o, values)[i]@ != sorted(o, values)[j]@,
{
    broadcast use vstd::seq_lib::group_to_multiset_ensures;

    let s = sorted(o, values);
    sorted_keeps_all(o, values);
    sorted_same_members(o, values);
    assert(values.no_duplicates()) by {
        assert forall|x: int, y: int|
            0 <= x < values.len() && 0 <= y < values.len() && x != y implies values[x]
            != values[y] by {
            if x < y {
                assert(values[x]@ != values[y]@);
            } else {
                assert(values[y]@ != values[x]@);
            }
        }
    }
    values.lemma_multiset_has_no_duplicates();
    s.lemma_multiset_has_no_duplicates_conv();
    assert(s.contains(s[i]) && s.contains(s[j]));
    let x = values.index_of(s[i]);
    let y = values.index_of(s[j]);
    assert(s[i] != s[j]);
    if x < y {
        assert(values[x]@ != values[y]@);
    } else {
        assert(x != y);
        assert(values[y]@ != values[x]@);
    }
}

proof fn lemma_values(rows: Seq<Battery>, name: Seq<char>, empty_too: bool, v: Seq<char>)
    requires
        name == "type"@ || name == "brand"@ || name == "location"@,
    ensures
        column_named(name) is Some,
        seen(values_in(rows, column_named(name)->0, empty_too), v) <==> (empty_too || v.len() > 0)
            && is_used(rows, name, v),
    decreases rows.len(),
{
    lemma_columns();
    let c = column_named(name)->0;
    if rows.len() > 0 {
        let d = rows.drop_last();
        lemma_values(d, name, empty_too, v);
        lemma_named(rows.last(), name);
        let before = values_in(d, c, empty_too);
        let all = values_in(rows, c, empty_too);
        assert(rows[rows.len() - 1] == rows.last());
        if seen(before, v) {
            let i = choose|i: int| 0 <= i < before.len() && (#[trigger] before[i])@ == v;
            assert(all[i]@ == v);
        }
        if is_used(d, name, v) {
            let i = choose|i: int|
                0 <= i < d.len() && (#[trigger] d[i]).deleted_at is None && in_named(d[i], name)
                    == v;
            assert(rows[i].deleted_at is None);
        }
        if is_used(rows, name, v) {
            let i = choose|i: int|
                0 <= i < rows.len() && (#[trigger] rows[i]).deleted_at is None && in_named(
                    rows[i],
                    name,
                ) == v;
            if i < d.len() {
                assert(d[i].deleted_at is None);
            } else if (empty_too || v.len() > 0) && !seen(before, v) {
                assert(all[all.len() - 1]@ == v);
            }
        }
        if seen(all, v) {
            let i = choose|i: int| 0 <= i < all.len() && (#[trigger] all[i])@ == v;
            if i < before.len() {
                assert(before[i]@ == v);
            }
        }
    }
}

/// The types that are counted are those in use, an empty one with them.
pub proof fn the_types_are_those_in_use(rows: Seq<Battery>, v: Seq<char>)
    ensures
        seen(sorted(Alphabetical, values_in(rows, Column::CellType, true)), v) <==> is_used(
            rows,
            "type"@,
            v,
        ),
{
    lemma_columns();
    lemma_values(rows, "type"@, true, v);
    lemma_sorted_seen(Alphabetical, values_in(rows, Column::CellType, true), v);
}

/// As many batteries are deleted as are marked so.
pub proof fn deleted_batteries_are_counted(rows: Seq<Battery>)
    ensures
        filtered(rows, ""@, ""@, ""@, "deleted"@).len() == rows.filter(
            |b: Battery| b.deleted_at is Some,
        ).len(),
        filtered(rows, ""@, ""@, ""@, "active"@).len() == rows.filter(
            |b: Battery| b.deleted_at is None,
        ).len(),
    decreases rows.len(),
{
    reveal(Seq::filter);
    reveal_strlit("");
    reveal_strlit("active");
    reveal_strlit("deleted");
    assert("active"@.len() == 6 && "deleted"@.len() == 7 && ""@.len() == 0);
    if rows.len() > 0 {
        deleted_batteries_are_counted(rows.drop_last());
    }
}

/// How often a value is used is how many batteries that are not deleted have it.
pub proof fn uses_are_counted(rows: Seq<Battery>, name: Seq<char>, v: Seq<char>)
    requires
        name == "type"@ || name == "brand"@ || name == "location"@,
    ensures
        column_named(name) is Some,
        uses(rows, column_named(name)->0, v) == rows.filter(
            |b: Battery| b.deleted_at is None && in_named(b, name) == v,
        ).len(),
    decreases rows.len(),
{
    reveal(Seq::filter);
    lemma_columns();
    if rows.len() > 0 {
        uses_are_counted(rows.drop_last(), name, v);
        lemma_named(rows.last(), name);
    }
}

/// The popular values are those in use, but for the empty one, none of them
/// twice. One that is used more often comes first, and of two that are used as
/// often the one that comes first in a dictionary.
pub proof fn what_is_used_most_comes_first(
    rows: Seq<Battery>,
    name: Seq<char>,
    o: ByUse,
    v: Seq<char>,
    i: int,
    j: int,
)
    requires
        name == "type"@ || name == "brand"@ || name == "location"@,
        o.rows@ == rows,
        Some(o.column) == column_named(name),
        0 <= i < j < by_use(rows, o.column, values_in(rows, o.column, false)).len(),
    ensures
        ({
            let s = by_use(rows, o.column, values_in(rows, o.column, false));
            let p = |v: Seq<char>|
                rows.filter(|b: Battery| b.deleted_at is None && in_named(b, name) == v).len();
            &&& p(s[i]@) > p(s[j]@) || (p(s[i]@) == p(s[j]@) && comes_before(s[i]@, s[j]@))
            &&& seen(s, v) <==> v.len() > 0 && is_used(rows, name, v)
        }),
{
    let values = values_in(rows, o.column, false);
    let s = sorted(o, values);
    lemma_by_use(o, values);
    lemma_values(rows, name, false, v);
    lemma_sorted_seen(o, values, v);
    sorted_in_order(o, values);
    assert(o.le(s[i], s[j]));
    uses_are_counted(rows, name, s[i]@);
    uses_are_counted(rows, name, s[j]@);
    lemma_once(rows, o.column, false);
    lemma_sorted_once(o, values, i, j);
    crate::text::lemma_text_lt_total(s[i]@, s[j]@);
    texts_are_in_dictionary_order(s[i]@, s[j]@);
}

// ── Rows of one battery or instrument ───────────────────────────────────

/// The readings of a battery begin with the newest.
pub proof fn the_newest_reading_comes_first(rows: Seq<Measurement>, id: i64, i: int, j: int)
    requires
        0 <= i < j < readings(rows, id).len(),
    ensures
        no_later(readings(rows, id)[j], readings(rows, id)[i]),
{
    let found = kept::<Measurement, _>(OfBattery { battery_id: id }, rows);
    let s = readings(rows, id);
    sorted_in_order(Newest, found);
    assert(Newest.le(s[i], s[j]));
    texts_are_in_dictionary_order(s[j].measured_at@, s[i].measured_at@);
}

/// The moves of a battery are its own, and begin with the newest.
pub proof fn the_newest_move_comes_first(
    rows: Seq<LocationEntry>,
    id: i64,
    e: LocationEntry,
    i: int,
    j: int,
)
    ensures
        moves(rows, id).to_multiset().count(e) == (if e.battery_id == id {
            rows.to_multiset().count(e)
        } else {
            0
        }),
        0 <= i < j < moves(rows, id).len() ==> {
            let a = moves(rows, id)[j];
            let b = moves(rows, id)[i];
            comes_before(a.moved_at@, b.moved_at@) || (a.moved_at@ == b.moved_at@ && a.id <= b.id)
        },
{
    let p = OfBattery { battery_id: id };
    let found = kept::<LocationEntry, _>(p, rows);
    let s = moves(rows, id);
    sorted_keeps_all(Newest, found);
    lemma_kept_count::<LocationEntry, _>(p, rows, e);
    sorted_in_order(Newest, found);
    if 0 <= i < j < s.len() {
        assert(Newest.le(s[i], s[j]));
        texts_are_in_dictionary_order(s[j].moved_at@, s[i].moved_at@);
    }
}

/// The procedures of an instrument are its own, by their place.
pub proof fn procedures_are_shown_by_place(
    rows: Seq<Mode>,
    id: i64,
    m: Mode,
    i: int,
    j: int,
)
    ensures
        modes_of(rows, id).to_multiset().count(m) == (if m.instrument_id == id {
            rows.to_multiset().count(m)
        } else {
            0
        }),
        0 <= i < j < modes_of(rows, id).len() ==> {
            let a = modes_of(rows, id)[i];
            let b = modes_of(rows, id)[j];
            a.position < b.position || (a.position == b.position && a.id <= b.id)
        },
{
    let p = OfInstrument { instrument_id: id };
    let found = kept(p, rows);
    let s = modes_of(rows, id);
    sorted_keeps_all(ByPosition, found);
    lemma_kept_count(p, rows, m);
    sorted_in_order(ByPosition, found);
    if 0 <= i < j < s.len() {
        assert(ByPosition.le(s[i], s[j]));
    }
}

/// What is suggested for the next reading comes from the one with the highest
/// number of those by an instrument, and from none where there is no such.
pub proof fn the_latest_instrument_is_suggested(rows: Seq<Measurement>)
    ensures
        match latest_by_instrument(rows) {
            Some(m) => {
                &&& rows.contains(m)
                &&& m.instrument_id is Some
                &&& forall|i: int|
                    0 <= i < rows.len() && (#[trigger] rows[i]).instrument_id is Some ==> rows[i].id
                        <= m.id
            },
            None => forall|i: int| 0 <= i < rows.len() ==> (#[trigger] rows[i]).instrument_id is None,
        },
    decreases rows.len(),
{
    if rows.len() > 0 {
        let d = rows.drop_last();
        the_latest_instrument_is_suggested(d);
        assert forall|i: int| 0 <= i < rows.len() - 1 implies #[trigger] rows[i] == d[i] by {}
        assert(rows[rows.len() - 1] == rows.last());
        if let Some(m) = latest_by_instrument(d) {
            let i = d.index_of(m);
            assert(rows[i] == m);
        }
    }
}

} // verus!
