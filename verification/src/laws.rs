//! What every change keeps: the tables stay sound whatever is done to them.

use vstd::prelude::*;
use crate::db::{
    at, bought, distinct_keys, keys_given, lemma_at, lemma_has, present, row, DbErrorView, DbView,
    Keyed,
};
use crate::records::{
    instrument_added, instrument_deleted, instrument_is_not, instrument_updated, is_not_bought_by,
    measured, mode_added, mode_deleted, mode_goes, mode_is_not, mode_is_not_of, mode_moved,
    mode_updated, neighbour, reading_deleted, reading_is_not, setting_at, setting_deleted,
    setting_is_not, setting_saved, staying, unlinked, without_mode, ReadingView,
};
use crate::rows::{BatteryView, LocationEntryView, MeasurementView, ModeView, SettingView};
use crate::sets::{
    closed_match, entry_deleted, entry_is_not, gathered, handed_out, in_pool, match_created,
    match_deleted, match_is_not, match_returned, moved_with_set, sets_returned,
};
use crate::text::{same_ignoring_case, trimmed};
use crate::writes::{
    battery_is_not, created, drop_member, is_not, move_is_not_of, moved, purged, reading_is_not_of,
    reset_record, restored, soft_deleted, updated, with_battery, with_move, without_battery,
    without_records,
};

verus! {

// ── Tables ──────────────────────────────────────────────────────────────

proof fn lemma_same_keys<T: Keyed>(a: Seq<T>, b: Seq<T>)
    requires
        a.len() == b.len(),
        forall|i: int| 0 <= i < a.len() ==> (#[trigger] a[i]).key() == b[i].key(),
    ensures
        forall|id: i64| #[trigger] present(b, id) == present(a, id),
        distinct_keys(a) ==> distinct_keys(b),
        forall|last: i64| keys_given(a, last) ==> #[trigger] keys_given(b, last),
{
    assert forall|id: i64| #[trigger] present(b, id) == present(a, id) by {
        lemma_has(a, id);
        lemma_has(b, id);
        if present(a, id) {
            let i = choose|i: int| 0 <= i < a.len() && (#[trigger] a[i]).key() == id;
            assert(b[i].key() == id);
        }
        if present(b, id) {
            let i = choose|i: int| 0 <= i < b.len() && (#[trigger] b[i]).key() == id;
            assert(a[i].key() == id);
        }
    }
    if distinct_keys(a) {
        assert forall|i: int, j: int| 0 <= i < j < b.len() implies (#[trigger] b[i]).key() != (
        #[trigger] b[j]).key() by {
            assert(a[i].key() != a[j].key());
        }
    }
    assert forall|last: i64| keys_given(a, last) implies #[trigger] keys_given(b, last) by {
        assert forall|i: int| 0 <= i < b.len() implies (#[trigger] b[i]).key() <= last by {
            assert(a[i].key() <= last);
        }
    }
}

proof fn lemma_pushed<T: Keyed>(rows: Seq<T>, x: T)
    ensures
        forall|id: i64| #[trigger]
            present(rows.push(x), id) == (present(rows, id) || id == x.key()),
        distinct_keys(rows) && !present(rows, x.key()) ==> distinct_keys(rows.push(x)),
        forall|last: i64| #![trigger keys_given(rows, last)]
            keys_given(rows, last) && last <= x.key() ==> keys_given(rows.push(x), x.key()),
        forall|last: i64| #![trigger keys_given(rows, last)]
            keys_given(rows, last) && last < x.key() ==> !present(rows, x.key()),
{
    let b = rows.push(x);
    assert forall|id: i64| #[trigger] present(b, id) == (present(rows, id) || id == x.key()) by {
        lemma_has(rows, id);
        lemma_has(b, id);
        if present(rows, id) {
            let i = choose|i: int| 0 <= i < rows.len() && (#[trigger] rows[i]).key() == id;
            assert(b[i].key() == id);
        }
        if id == x.key() {
            assert(b[rows.len() as int].key() == id);
        }
        if present(b, id) {
            let i = choose|i: int| 0 <= i < b.len() && (#[trigger] b[i]).key() == id;
            if i < rows.len() {
                assert(rows[i].key() == id);
            }
        }
    }
    lemma_has(rows, x.key());
    if distinct_keys(rows) && !present(rows, x.key()) {
        assert forall|i: int, j: int| 0 <= i < j < b.len() implies (#[trigger] b[i]).key() != (
        #[trigger] b[j]).key() by {
            assert(rows[i].key() != x.key());
            if j < rows.len() {
                assert(rows[i].key() != rows[j].key());
            }
        }
    }
    assert forall|last: i64| #![trigger keys_given(rows, last)]
        keys_given(rows, last) && last <= x.key() implies keys_given(b, x.key()) by {
        assert forall|i: int| 0 <= i < b.len() implies (#[trigger] b[i]).key() <= x.key() by {
            if i < rows.len() {
                assert(rows[i].key() <= last);
            }
        }
    }
}

/// Keeping some rows keeps them as they are and in their order.
proof fn lemma_filtered<T>(rows: Seq<T>, f: spec_fn(T) -> bool)
    ensures
        forall|x: T| #[trigger] rows.filter(f).contains(x) <==> rows.contains(x) && f(x),
        rows.filter(f).len() <= rows.len(),
    decreases rows.len(),
{
    reveal(Seq::filter);
    let k = rows.filter(f);
    if rows.len() > 0 {
        let d = rows.drop_last();
        lemma_filtered(d, f);
        assert forall|x: T| #[trigger] k.contains(x) <==> rows.contains(x) && f(x) by {
            if rows.contains(x) && f(x) {
                let i = rows.index_of(x);
                if i < d.len() {
                    assert(d[i] == x);
                    assert(d.contains(x));
                    assert(d.filter(f).contains(x));
                    let j = d.filter(f).index_of(x);
                    assert(k[j] == x);
                } else {
                    assert(k.last() == x);
                    assert(k[k.len() - 1] == x);
                }
            }
            if k.contains(x) {
                let j = k.index_of(x);
                if f(rows.last()) && j == k.len() - 1 {
                    assert(rows[rows.len() - 1] == x);
                } else {
                    assert(d.filter(f)[j] == x);
                    assert(d.filter(f).contains(x));
                    let i = d.index_of(x);
                    assert(rows[i] == x);
                }
            }
        }
    }
}

proof fn lemma_filtered_keys<T: Keyed>(rows: Seq<T>, f: spec_fn(T) -> bool)
    ensures
        distinct_keys(rows) ==> distinct_keys(rows.filter(f)),
        forall|last: i64| keys_given(rows, last) ==> #[trigger] keys_given(rows.filter(f), last),
        forall|id: i64| #[trigger] present(rows.filter(f), id) ==> present(rows, id),
    decreases rows.len(),
{
    reveal(Seq::filter);
    lemma_filtered(rows, f);
    let k = rows.filter(f);
    if distinct_keys(rows) && rows.len() > 0 {
        let d = rows.drop_last();
        assert forall|i: int, j: int| 0 <= i < j < d.len() implies (#[trigger] d[i]).key() != (
        #[trigger] d[j]).key() by {
            assert(rows[i].key() != rows[j].key());
        }
        lemma_filtered_keys(d, f);
        lemma_filtered(d, f);
        assert forall|i: int, j: int| 0 <= i < j < k.len() implies (#[trigger] k[i]).key() != (
        #[trigger] k[j]).key() by {
            let kd = d.filter(f);
            if j < kd.len() {
                assert(kd[i].key() != kd[j].key());
            } else {
                assert(kd.contains(kd[i]));
                assert(d.contains(kd[i]));
                let a = d.index_of(kd[i]);
                assert(rows[a].key() != rows[rows.len() - 1].key());
            }
        }
    }
    assert forall|last: i64| keys_given(rows, last) implies #[trigger] keys_given(k, last) by {
        assert forall|i: int| 0 <= i < k.len() implies (#[trigger] k[i]).key() <= last by {
            assert(k.contains(k[i]));
            let a = rows.index_of(k[i]);
            assert(rows[a].key() <= last);
        }
    }
    assert forall|id: i64| #[trigger] present(k, id) implies present(rows, id) by {
        lemma_has(k, id);
        lemma_has(rows, id);
        let i = choose|i: int| 0 <= i < k.len() && (#[trigger] k[i]).key() == id;
        assert(k.contains(k[i]));
        let a = rows.index_of(k[i]);
        assert(rows[a].key() == id);
    }
}

/// A row that is kept is still there.
proof fn lemma_kept_present<T: Keyed>(rows: Seq<T>, f: spec_fn(T) -> bool, id: i64)
    requires
        present(rows, id),
        forall|x: T| #[trigger] rows.contains(x) && x.key() == id ==> f(x),
    ensures
        present(rows.filter(f), id),
{
    lemma_filtered(rows, f);
    lemma_has(rows, id);
    let i = choose|i: int| 0 <= i < rows.len() && (#[trigger] rows[i]).key() == id;
    assert(rows.contains(rows[i]));
    assert(rows.filter(f).contains(rows[i]));
    lemma_has(rows.filter(f), id);
    let j = rows.filter(f).index_of(rows[i]);
    assert(rows.filter(f)[j].key() == id);
}

// ── Batteries ───────────────────────────────────────────────────────────

proof fn lemma_with_battery(d: DbView, i: int, b: BatteryView)
    requires
        d.wf(),
        0 <= i < d.batteries.len(),
        b.id == d.batteries[i].id,
    ensures
        with_battery(d, i, b).wf(),
        forall|id: i64| #[trigger]
            present(with_battery(d, i, b).batteries, id) == present(d.batteries, id),
{
    let e = with_battery(d, i, b);
    lemma_same_keys(d.batteries, e.batteries);
}

proof fn lemma_with_move(d: DbView, id: i64, location: Seq<char>, now: Seq<char>)
    requires
        d.wf(),
        present(d.batteries, id),
    ensures
        with_move(d, id, location, now) matches Some(e) ==> e.wf(),
{
    if let Some(e) = with_move(d, id, location, now) {
        let x = e.history.last();
        lemma_pushed(d.history, x);
        assert(keys_given(d.history, d.last_history));
        assert forall|i: int| 0 <= i < e.history.len() implies present(
            e.batteries,
            (#[trigger] e.history[i]).battery_id,
        ) by {
            if i < d.history.len() {
                assert(present(d.batteries, d.history[i].battery_id));
            }
        }
    }
}

/// Adding a battery keeps the tables sound.
pub proof fn creating_keeps_the_tables_sound(
    d: DbView,
    id: i64,
    cell_type: Seq<char>,
    nominal_mah: Option<i64>,
    brand: Seq<char>,
    location: Seq<char>,
    notes: Seq<char>,
    now: Seq<char>,
)
    requires
        d.wf(),
    ensures
        created(d, id, cell_type, nominal_mah, brand, location, notes, now) matches Ok((e, b))
            ==> e.wf() && e.batteries == d.batteries.push(b),
{
    if let Ok((e, b)) = created(d, id, cell_type, nominal_mah, brand, location, notes, now) {
        let mid = DbView { batteries: d.batteries.push(b), ..d };
        lemma_pushed(d.batteries, b);
        assert(mid.wf());
        if b.location.len() > 0 {
            lemma_with_move(mid, id, b.location, now);
        }
    }
}

/// Moving a battery keeps the tables sound.
pub proof fn moving_keeps_the_tables_sound(d: DbView, id: i64, location: Seq<char>, now: Seq<char>)
    requires
        d.wf(),
    ensures
        moved(d, id, location, now) matches Ok((e, _)) ==> e.wf(),
{
    let i = at(d.batteries, id, 0);
    lemma_at(d.batteries, id, 0);
    let place = trimmed(location);
    if i < d.batteries.len() && place != d.batteries[i].location {
        let b = BatteryView { location: place, updated_at: now, ..d.batteries[i] };
        lemma_with_battery(d, i, b);
        lemma_with_move(with_battery(d, i, b), id, place, now);
    }
}

/// A battery that is moved to where it is already gets no new entry in its
/// history, and nothing else changes either.
pub proof fn the_same_location_is_not_recorded_twice(
    d: DbView,
    id: i64,
    location: Seq<char>,
    now: Seq<char>,
    later: Seq<char>,
)
    ensures
        moved(d, id, location, now) matches Ok((e, b)) ==> moved(e, id, location, later) == Ok::<
            (DbView, Option<BatteryView>),
            DbErrorView,
        >((e, b)),
{
    let i = at(d.batteries, id, 0);
    lemma_at(d.batteries, id, 0);
    let place = trimmed(location);
    if i < d.batteries.len() && place != d.batteries[i].location {
        if let Ok((e, _)) = moved(d, id, location, now) {
            lemma_at_update(d.batteries, i, e.batteries[i], id);
        }
    }
}

/// Changing a row without its number does not change where it is found.
proof fn lemma_at_update<T: Keyed>(rows: Seq<T>, i: int, x: T, id: i64)
    requires
        0 <= i < rows.len(),
        x.key() == rows[i].key(),
    ensures
        at(rows.update(i, x), id, 0) == at(rows, id, 0),
{
    let after = rows.update(i, x);
    lemma_at(rows, id, 0);
    lemma_at(after, id, 0);
    let a = at(rows, id, 0);
    let b = at(after, id, 0);
    if a < b {
        assert(after[a].key() == rows[a].key());
    }
    if b < a {
        assert(after[b].key() == rows[b].key());
    }
}

/// A move puts the battery where it was sent, with one more entry at the end
/// of the history that says so, and moves no other battery.
pub proof fn a_move_is_recorded(d: DbView, id: i64, location: Seq<char>, now: Seq<char>, other: i64)
    requires
        d.wf(),
        present(d.batteries, id),
        row(d.batteries, id)->0.location != trimmed(location),
        other != id,
    ensures
        moved(d, id, location, now) matches Ok((e, b)) ==> {
            &&& row(e.batteries, id)->0.location == trimmed(location)
            &&& e.history.drop_last() == d.history
            &&& e.history.last().battery_id == id
            &&& e.history.last().location == trimmed(location)
            &&& row(e.batteries, other) == row(d.batteries, other)
        },
{
    let i = at(d.batteries, id, 0);
    lemma_at(d.batteries, id, 0);
    if let Ok((e, _)) = moved(d, id, location, now) {
        lemma_at_update(d.batteries, i, e.batteries[i], id);
        lemma_at_update(d.batteries, i, e.batteries[i], other);
        lemma_at(d.batteries, other, 0);
        assert(e.history.drop_last() =~= d.history);
        let k = at(d.batteries, other, 0);
        if k < d.batteries.len() {
            assert(d.batteries[k].key() == other);
            assert(k != i);
        }
    }
}

/// Editing a battery keeps the tables sound.
pub proof fn editing_keeps_the_tables_sound(
    d: DbView,
    id: i64,
    cell_type: Option<Seq<char>>,
    nominal_mah: Option<Option<i64>>,
    brand: Option<Seq<char>>,
    notes: Option<Seq<char>>,
    now: Seq<char>,
)
    requires
        d.wf(),
    ensures
        updated(d, id, cell_type, nominal_mah, brand, notes, now).0.wf(),
{
    let i = at(d.batteries, id, 0);
    lemma_at(d.batteries, id, 0);
    if i < d.batteries.len() {
        let e = updated(d, id, cell_type, nominal_mah, brand, notes, now).0;
        if e != d {
            lemma_with_battery(d, i, e.batteries[i]);
            assert(e == with_battery(d, i, e.batteries[i]));
        }
    }
}

proof fn lemma_fewer_readings(d: DbView, f: spec_fn(MeasurementView) -> bool)
    requires
        d.wf(),
    ensures
        (DbView { measurements: d.measurements.filter(f), ..d }).wf(),
{
    let e = DbView { measurements: d.measurements.filter(f), ..d };
    lemma_filtered(d.measurements, f);
    lemma_filtered_keys(d.measurements, f);
    assert(e.measurements_linked()) by {
        assert forall|i: int| 0 <= i < e.measurements.len() implies {
            let m = #[trigger] e.measurements[i];
            &&& present(e.batteries, m.battery_id)
            &&& m.instrument_id matches Some(k) ==> present(e.instruments, k)
            &&& m.mode_id matches Some(k) ==> present(e.modes, k)
        } by {
            assert(e.measurements.contains(e.measurements[i]));
            let a = d.measurements.index_of(e.measurements[i]);
            assert(d.measurements[a] == e.measurements[i]);
        }
    }
    assert(e.bought_once()) by {
        assert forall|i: int, j: int|
            0 <= i < j < e.measurements.len() && bought(#[trigger] e.measurements[i]) && bought(
                #[trigger] e.measurements[j],
            ) implies e.measurements[i].battery_id != e.measurements[j].battery_id by {
            let x = e.measurements[i];
            let y = e.measurements[j];
            assert(x.key() != y.key());
            assert(e.measurements.contains(x) && e.measurements.contains(y));
            let a = d.measurements.index_of(x);
            let b = d.measurements.index_of(y);
            assert(d.measurements[a] == x && d.measurements[b] == y);
            if a < b {
                assert(bought(d.measurements[a]) && bought(d.measurements[b]));
            } else {
                assert(bought(d.measurements[b]) && bought(d.measurements[a]));
            }
        }
    }
}

proof fn lemma_fewer_moves(d: DbView, f: spec_fn(LocationEntryView) -> bool)
    requires
        d.wf(),
    ensures
        (DbView { history: d.history.filter(f), ..d }).wf(),
{
    let e = DbView { history: d.history.filter(f), ..d };
    lemma_filtered(d.history, f);
    lemma_filtered_keys(d.history, f);
    assert forall|i: int| 0 <= i < e.history.len() implies present(
        e.batteries,
        (#[trigger] e.history[i]).battery_id,
    ) by {
        assert(e.history.contains(e.history[i]));
        let a = d.history.index_of(e.history[i]);
        assert(d.history[a] == e.history[i]);
    }
}

proof fn lemma_fewer_members(d: DbView, id: i64)
    requires
        d.wf(),
    ensures
        (DbView { matches: d.matches.map_values(drop_member(id)), ..d }).wf(),
        forall|i: int, j: int|
            0 <= i < d.matches.len() && 0 <= j < d.matches.map_values(
                drop_member(id),
            )[i].battery_ids.len() ==> #[trigger] d.matches.map_values(
                drop_member(id),
            )[i].battery_ids[j] != id,
{
    let e = DbView { matches: d.matches.map_values(drop_member(id)), ..d };
    lemma_same_keys(d.matches, e.matches);
    assert forall|i: int, j: int|
        0 <= i < e.matches.len() && 0 <= j < e.matches[i].battery_ids.len() implies present(
        e.batteries,
        #[trigger] e.matches[i].battery_ids[j],
    ) && e.matches[i].battery_ids[j] != id by {
        let was = d.matches[i].battery_ids;
        lemma_filtered(was, is_not(id));
        assert(e.matches[i].battery_ids == was.filter(is_not(id)));
        let x = e.matches[i].battery_ids[j];
        assert(e.matches[i].battery_ids.contains(x));
        assert(was.contains(x));
        let a = was.index_of(x);
        assert(d.matches[i].battery_ids[a] == x);
    }
}

/// Dropping what is recorded of a battery keeps the tables sound, and leaves
/// nothing that speaks of it.
proof fn lemma_without_records(d: DbView, id: i64)
    requires
        d.wf(),
    ensures
        without_records(d, id).wf(),
        unmentioned(without_records(d, id), id),
{
    let a = DbView { history: d.history.filter(move_is_not_of(id)), ..d };
    lemma_fewer_moves(d, move_is_not_of(id));
    lemma_filtered(d.history, move_is_not_of(id));
    let b = DbView { measurements: d.measurements.filter(reading_is_not_of(id)), ..a };
    lemma_fewer_readings(a, reading_is_not_of(id));
    lemma_filtered(d.measurements, reading_is_not_of(id));
    lemma_fewer_members(b, id);
    let e = without_records(d, id);
    assert(e =~= DbView { matches: b.matches.map_values(drop_member(id)), ..b });
    assert forall|i: int| 0 <= i < e.history.len() implies (#[trigger] e.history[i]).battery_id
        != id by {
        assert(e.history.contains(e.history[i]));
    }
    assert forall|i: int| 0 <= i < e.measurements.len() implies (
    #[trigger] e.measurements[i]).battery_id != id by {
        assert(e.measurements.contains(e.measurements[i]));
    }
}

/// Nothing speaks of a battery: no move, no reading, no match.
pub open spec fn unmentioned(d: DbView, id: i64) -> bool {
    &&& forall|i: int| 0 <= i < d.history.len() ==> (#[trigger] d.history[i]).battery_id != id
    &&& forall|i: int|
        0 <= i < d.measurements.len() ==> (#[trigger] d.measurements[i]).battery_id != id
    &&& forall|i: int, j: int|
        0 <= i < d.matches.len() && 0 <= j < d.matches[i].battery_ids.len()
            ==> #[trigger] d.matches[i].battery_ids[j] != id
}

/// Removing a battery keeps the tables sound, takes everything that speaks of
/// it along, and leaves every other battery.
pub proof fn removing_keeps_the_tables_sound(d: DbView, id: i64, other: i64)
    requires
        d.wf(),
        other != id,
    ensures
        without_battery(d, id).wf(),
        !present(without_battery(d, id).batteries, id),
        unmentioned(without_battery(d, id), id),
        present(without_battery(d, id).batteries, other) == present(d.batteries, other),
{
    lemma_without_records(d, id);
    let r = without_records(d, id);
    let e = without_battery(d, id);
    let f = battery_is_not(id);
    lemma_filtered(d.batteries, f);
    lemma_filtered_keys(d.batteries, f);
    assert forall|k: i64| k != id && present(d.batteries, k) implies #[trigger] present(
        e.batteries,
        k,
    ) by {
        lemma_kept_present(d.batteries, f, k);
    }
    lemma_has(e.batteries, id);
    if present(e.batteries, id) {
        let i = choose|i: int| 0 <= i < e.batteries.len() && (#[trigger] e.batteries[i]).key() == id;
        assert(e.batteries.contains(e.batteries[i]));
    }
    assert(e.history_linked()) by {
        assert forall|i: int| 0 <= i < e.history.len() implies present(
            e.batteries,
            (#[trigger] e.history[i]).battery_id,
        ) by {
            assert(present(r.batteries, r.history[i].battery_id));
        }
    }
    assert(e.measurements_linked()) by {
        assert forall|i: int| 0 <= i < e.measurements.len() implies {
            let m = #[trigger] e.measurements[i];
            &&& present(e.batteries, m.battery_id)
            &&& m.instrument_id matches Some(k) ==> present(e.instruments, k)
            &&& m.mode_id matches Some(k) ==> present(e.modes, k)
        } by {
            assert(present(r.batteries, r.measurements[i].battery_id));
        }
    }
    assert(e.matches_linked()) by {
        assert forall|i: int, j: int|
            0 <= i < e.matches.len() && 0 <= j < e.matches[i].battery_ids.len() implies present(
            e.batteries,
            #[trigger] e.matches[i].battery_ids[j],
        ) by {
            assert(present(r.batteries, r.matches[i].battery_ids[j]));
        }
    }
}

/// Deleting a battery keeps the tables sound.
pub proof fn deleting_keeps_the_tables_sound(d: DbView, id: i64, now: Seq<char>)
    requires
        d.wf(),
    ensures
        soft_deleted(d, id, now).0.wf(),
{
    let i = at(d.batteries, id, 0);
    lemma_at(d.batteries, id, 0);
    if i < d.batteries.len() {
        let e = soft_deleted(d, id, now).0;
        if e == without_battery(d, id) {
            removing_keeps_the_tables_sound(
                d,
                id,
                if id == 0 {
                    1
                } else {
                    0
                },
            );
        } else if e != d {
            lemma_with_battery(d, i, e.batteries[i]);
        }
    }
}

/// A deleted battery stays in the table unless it had the highest number and
/// no readings; then its number is free again.
pub proof fn only_the_last_unused_battery_goes(d: DbView, id: i64, now: Seq<char>)
    requires
        d.wf(),
        present(d.batteries, id),
        row(d.batteries, id)->0.deleted_at is None,
    ensures
        ({
            let (e, b) = soft_deleted(d, id, now);
            let last = crate::writes::is_highest(d, id) && !crate::writes::has_readings(d, id);
            &&& b is Some
            &&& b->0.hard_deleted == Some(last)
            &&& last <==> !present(e.batteries, id)
            &&& !last ==> row(e.batteries, id)->0.deleted_at == Some(now)
        }),
{
    let i = at(d.batteries, id, 0);
    lemma_at(d.batteries, id, 0);
    let e = soft_deleted(d, id, now).0;
    if crate::writes::is_highest(d, id) && !crate::writes::has_readings(d, id) {
        removing_keeps_the_tables_sound(
            d,
            id,
            if id == 0 {
                1
            } else {
                0
            },
        );
    } else {
        lemma_at_update(d.batteries, i, e.batteries[i], id);
    }
}

/// Deleting a deleted battery changes nothing.
pub proof fn deleting_twice_is_deleting_once(d: DbView, id: i64, now: Seq<char>, later: Seq<char>)
    requires
        d.wf(),
        present(soft_deleted(d, id, now).0.batteries, id),
    ensures
        soft_deleted(soft_deleted(d, id, now).0, id, later).0 == soft_deleted(d, id, now).0,
{
    let i = at(d.batteries, id, 0);
    lemma_at(d.batteries, id, 0);
    let e = soft_deleted(d, id, now).0;
    if e == without_battery(d, id) {
        removing_keeps_the_tables_sound(
            d,
            id,
            if id == 0 {
                1
            } else {
                0
            },
        );
    } else if i < d.batteries.len() && e != d {
        lemma_at_update(d.batteries, i, e.batteries[i], id);
    }
}

/// Restoring a battery undoes its deletion: all but the time of the last
/// change is as it was.
pub proof fn restoring_undoes_deleting(d: DbView, id: i64, now: Seq<char>, later: Seq<char>)
    requires
        d.wf(),
        present(d.batteries, id),
        row(d.batteries, id)->0.deleted_at is None,
        present(soft_deleted(d, id, now).0.batteries, id),
    ensures
        ({
            let i = at(d.batteries, id, 0);
            restored(soft_deleted(d, id, now).0, id, later).0 == with_battery(
                d,
                i,
                BatteryView { updated_at: later, ..d.batteries[i] },
            )
        }),
{
    let i = at(d.batteries, id, 0);
    lemma_at(d.batteries, id, 0);
    only_the_last_unused_battery_goes(d, id, now);
    let e = soft_deleted(d, id, now).0;
    lemma_at_update(d.batteries, i, e.batteries[i], id);
    let f = restored(e, id, later).0;
    assert(f.batteries =~= d.batteries.update(
        i,
        BatteryView { updated_at: later, ..d.batteries[i] },
    ));
}

/// Restoring a battery keeps the tables sound.
pub proof fn restoring_keeps_the_tables_sound(d: DbView, id: i64, now: Seq<char>)
    requires
        d.wf(),
    ensures
        restored(d, id, now).0.wf(),
{
    let i = at(d.batteries, id, 0);
    lemma_at(d.batteries, id, 0);
    if i < d.batteries.len() && restored(d, id, now).0 != d {
        lemma_with_battery(d, i, restored(d, id, now).0.batteries[i]);
    }
}

/// A battery is removed for good exactly when it is deleted and was never
/// measured, and the tables stay sound.
pub proof fn purging_takes_a_deleted_unmeasured_battery(d: DbView, id: i64)
    requires
        d.wf(),
    ensures
        purged(d, id) is Ok <==> present(d.batteries, id) && row(d.batteries, id)->0.deleted_at is Some
            && !crate::writes::has_readings(d, id),
        purged(d, id) matches Ok(e) ==> e.wf() && !present(e.batteries, id),
{
    removing_keeps_the_tables_sound(
        d,
        id,
        if id == 0 {
            1
        } else {
            0
        },
    );
}

/// Clearing a record keeps the tables sound; what is left speaks of the
/// battery only in one entry of its history, so that no match can pull it
/// along any more.
pub proof fn clearing_keeps_the_tables_sound(d: DbView, id: i64, now: Seq<char>)
    requires
        d.wf(),
    ensures
        reset_record(d, id, now) matches Ok((e, b)) ==> {
            &&& e.wf()
            &&& b is Some ==> {
                &&& e.history.last().battery_id == id
                &&& e.history.last().location == "Record cleared"@
                &&& unmentioned(DbView { history: e.history.drop_last(), ..e }, id)
            }
        },
{
    let i = at(d.batteries, id, 0);
    lemma_at(d.batteries, id, 0);
    if i < d.batteries.len() {
        if let Ok((e, Some(b))) = reset_record(d, id, now) {
            lemma_without_records(d, id);
            let r = without_records(d, id);
            lemma_with_battery(r, i, b);
            lemma_with_move(with_battery(r, i, b), id, "Record cleared"@, now);
            assert(e.history.drop_last() =~= r.history);
        }
    }
}

// ── Readings ────────────────────────────────────────────────────────────

/// Adding a reading keeps the tables sound: among other things a battery is
/// still bought at most once.
pub proof fn measuring_keeps_the_tables_sound(
    d: DbView,
    id: i64,
    reading: ReadingView,
    now: Seq<char>,
)
    requires
        d.wf(),
    ensures
        measured(d, id, reading, now) matches Ok((e, _)) ==> e.wf(),
{
    if let Ok((e, Some(m))) = measured(d, id, reading, now) {
        let f = is_not_bought_by(id);
        let kept_rows = staying(d, id, reading.kind);
        let mid = DbView { measurements: kept_rows, ..d };
        if reading.kind == "bought"@ {
            lemma_fewer_readings(d, f);
        }
        assert(mid.wf());
        lemma_pushed(kept_rows, m);
        assert(keys_given(kept_rows, d.last_measurement));
        assert forall|i: int| 0 <= i < e.measurements.len() implies {
            let x = #[trigger] e.measurements[i];
            &&& present(e.batteries, x.battery_id)
            &&& x.instrument_id matches Some(k) ==> present(e.instruments, k)
            &&& x.mode_id matches Some(k) ==> present(e.modes, k)
        } by {
            if i < kept_rows.len() {
                assert(mid.measurements[i] == e.measurements[i]);
            }
        }
        assert forall|i: int, j: int|
            0 <= i < j < e.measurements.len() && bought(#[trigger] e.measurements[i]) && bought(
                #[trigger] e.measurements[j],
            ) implies e.measurements[i].battery_id != e.measurements[j].battery_id by {
            if j < kept_rows.len() {
                assert(bought(mid.measurements[i]) && bought(mid.measurements[j]));
            } else {
                lemma_filtered(d.measurements, f);
                assert(kept_rows.contains(kept_rows[i]));
                assert(f(kept_rows[i]));
            }
        }
    }
}

/// After a purchase was recorded it is the only one of its battery.
pub proof fn a_purchase_replaces_the_earlier_one(
    d: DbView,
    id: i64,
    reading: ReadingView,
    now: Seq<char>,
)
    requires
        reading.kind == "bought"@,
    ensures
        measured(d, id, reading, now) matches Ok((e, Some(m))) ==> {
            &&& e.measurements.last() == m
            &&& bought(m)
            &&& forall|i: int|
                0 <= i < e.measurements.len() - 1 && bought(#[trigger] e.measurements[i])
                    ==> e.measurements[i].battery_id != id
        },
{
    if let Ok((e, Some(m))) = measured(d, id, reading, now) {
        let f = is_not_bought_by(id);
        let kept_rows = staying(d, id, reading.kind);
        lemma_filtered(d.measurements, f);
        assert forall|i: int|
            0 <= i < e.measurements.len() - 1 && bought(#[trigger] e.measurements[i]) implies
            e.measurements[i].battery_id != id by {
            assert(kept_rows.contains(kept_rows[i]));
            assert(f(kept_rows[i]));
        }
    }
}

/// Deleting a reading keeps the tables sound.
pub proof fn deleting_a_reading_keeps_the_tables_sound(d: DbView, id: i64)
    requires
        d.wf(),
    ensures
        reading_deleted(d, id).0.wf(),
{
    lemma_fewer_readings(d, reading_is_not(id));
}

// ── Instruments ─────────────────────────────────────────────────────────

/// Adding or changing an instrument keeps the tables sound.
pub proof fn instruments_keep_the_tables_sound(
    d: DbView,
    id: i64,
    name: Seq<char>,
    slots: i64,
    now: Seq<char>,
)
    requires
        d.wf(),
    ensures
        instrument_added(d, name, slots, now) matches Ok((e, _)) ==> e.wf(),
        instrument_updated(d, id, name, slots, now) matches Ok((e, _)) ==> e.wf(),
{
    if let Ok((e, i)) = instrument_added(d, name, slots, now) {
        lemma_pushed(d.instruments, i);
        assert(keys_given(d.instruments, d.last_instrument));
        lemma_instruments_grow(d, e);
    }
    lemma_at(d.instruments, id, 0);
    if let Ok((e, Some(_))) = instrument_updated(d, id, name, slots, now) {
        lemma_same_keys(d.instruments, e.instruments);
        lemma_instruments_grow(d, e);
    }
}

proof fn lemma_instruments_grow(d: DbView, e: DbView)
    requires
        d.wf(),
        e == (DbView {
            instruments: e.instruments,
            last_instrument: e.last_instrument,
            ..d
        }),
        distinct_keys(e.instruments),
        keys_given(e.instruments, e.last_instrument),
        forall|id: i64| #[trigger] present(d.instruments, id) ==> present(e.instruments, id),
    ensures
        e.wf(),
{
    assert(e.measurements_linked()) by {
        assert forall|i: int| 0 <= i < e.measurements.len() implies {
            let x = #[trigger] e.measurements[i];
            &&& present(e.batteries, x.battery_id)
            &&& x.instrument_id matches Some(k) ==> present(e.instruments, k)
            &&& x.mode_id matches Some(k) ==> present(e.modes, k)
        } by {
            assert(d.measurements[i] == e.measurements[i]);
        }
    }
    assert(e.modes_linked()) by {
        assert forall|i: int| 0 <= i < e.modes.len() implies present(
            e.instruments,
            (#[trigger] e.modes[i]).instrument_id,
        ) by {
            assert(present(d.instruments, d.modes[i].instrument_id));
        }
    }
}

/// Deleting an instrument keeps the tables sound: no reading and no procedure
/// speaks of it any more, and no reading is lost.
pub proof fn deleting_an_instrument_keeps_the_tables_sound(d: DbView, id: i64)
    requires
        d.wf(),
    ensures
        instrument_deleted(d, id).0.wf(),
        instrument_deleted(d, id).0.measurements.len() == d.measurements.len(),
        present(d.instruments, id) ==> forall|i: int|
            0 <= i < d.measurements.len() ==> (
            #[trigger] instrument_deleted(d, id).0.measurements[i]).instrument_id != Some(id),
{
    let e = instrument_deleted(d, id).0;
    if present(d.instruments, id) {
        let f = instrument_is_not(id);
        let g = mode_is_not_of(id);
        lemma_filtered(d.instruments, f);
        lemma_filtered_keys(d.instruments, f);
        lemma_filtered(d.modes, g);
        lemma_filtered_keys(d.modes, g);
        assert forall|k: i64| k != id && present(d.instruments, k) implies #[trigger] present(
            e.instruments,
            k,
        ) by {
            lemma_kept_present(d.instruments, f, k);
        }
        assert forall|k: i64| present(d.modes, k) && !mode_goes(d.modes, id, k) implies
            #[trigger] present(e.modes, k) by {
            assert forall|x: ModeView| #[trigger] d.modes.contains(x) && x.key() == k implies g(
                x,
            ) by {
                let a = d.modes.index_of(x);
                assert(d.modes[a].id == k);
            }
            lemma_kept_present(d.modes, g, k);
        }
        lemma_same_keys(d.measurements, e.measurements);
        assert(e.modes_linked()) by {
            assert forall|i: int| 0 <= i < e.modes.len() implies present(
                e.instruments,
                (#[trigger] e.modes[i]).instrument_id,
            ) by {
                assert(e.modes.contains(e.modes[i]));
                let a = d.modes.index_of(e.modes[i]);
                assert(d.modes[a] == e.modes[i]);
                assert(present(d.instruments, d.modes[a].instrument_id));
            }
        }
        assert(e.measurements_linked()) by {
            assert forall|i: int| 0 <= i < e.measurements.len() implies {
                let x = #[trigger] e.measurements[i];
                &&& present(e.batteries, x.battery_id)
                &&& x.instrument_id matches Some(k) ==> present(e.instruments, k)
                &&& x.mode_id matches Some(k) ==> present(e.modes, k)
            } by {
                let was = d.measurements[i];
                assert(e.measurements[i] == unlinked(d.modes, id)(was));
            }
        }
        assert(e.bought_once()) by {
            assert forall|i: int, j: int|
                0 <= i < j < e.measurements.len() && bought(#[trigger] e.measurements[i]) && bought(
                    #[trigger] e.measurements[j],
                ) implies e.measurements[i].battery_id != e.measurements[j].battery_id by {
                assert(bought(d.measurements[i]) && bought(d.measurements[j]));
            }
        }
    }
}

proof fn lemma_modes_change(d: DbView, e: DbView)
    requires
        d.wf(),
        e == (DbView { modes: e.modes, last_mode: e.last_mode, ..d }),
        distinct_keys(e.modes),
        keys_given(e.modes, e.last_mode),
        forall|id: i64| #[trigger] present(d.modes, id) ==> present(e.modes, id),
        e.modes_linked(),
    ensures
        e.wf(),
{
    assert(e.measurements_linked()) by {
        assert forall|i: int| 0 <= i < e.measurements.len() implies {
            let x = #[trigger] e.measurements[i];
            &&& present(e.batteries, x.battery_id)
            &&& x.instrument_id matches Some(k) ==> present(e.instruments, k)
            &&& x.mode_id matches Some(k) ==> present(e.modes, k)
        } by {
            assert(d.measurements[i] == e.measurements[i]);
        }
    }
}

/// Adding, changing and moving a procedure keeps the tables sound.
pub proof fn procedures_keep_the_tables_sound(
    d: DbView,
    id: i64,
    name: Seq<char>,
    kind: Seq<char>,
    details: Seq<char>,
    fields: Option<Seq<(Seq<char>, bool, bool)>>,
    direction: Seq<char>,
    now: Seq<char>,
)
    requires
        d.wf(),
    ensures
        mode_added(d, id, name, kind, details, fields, now) matches Ok((e, _)) ==> e.wf(),
        mode_updated(d, id, name, kind, details, fields, now) matches Ok((e, _)) ==> e.wf(),
        mode_moved(d, id, direction, now) matches Ok((e, _)) ==> e.wf(),
{
    if let Ok((e, m)) = mode_added(d, id, name, kind, details, fields, now) {
        lemma_pushed(d.modes, m);
        assert(keys_given(d.modes, d.last_mode));
        assert forall|i: int| 0 <= i < e.modes.len() implies present(
            e.instruments,
            (#[trigger] e.modes[i]).instrument_id,
        ) by {
            if i < d.modes.len() {
                assert(present(d.instruments, d.modes[i].instrument_id));
            }
        }
        lemma_modes_change(d, e);
    }
    lemma_at(d.modes, id, 0);
    if let Ok((e, Some(_))) = mode_updated(d, id, name, kind, details, fields, now) {
        lemma_same_keys(d.modes, e.modes);
        assert forall|i: int| 0 <= i < e.modes.len() implies present(
            e.instruments,
            (#[trigger] e.modes[i]).instrument_id,
        ) by {
            assert(present(d.instruments, d.modes[i].instrument_id));
        }
        lemma_modes_change(d, e);
    }
    if let Ok((e, true)) = mode_moved(d, id, direction, now) {
        lemma_neighbour(
            d.modes,
            d.modes[at(d.modes, id, 0)],
            direction == "up"@,
            d.modes.len() as int,
        );
        lemma_same_keys(d.modes, e.modes);
        assert forall|i: int| 0 <= i < e.modes.len() implies present(
            e.instruments,
            (#[trigger] e.modes[i]).instrument_id,
        ) by {
            assert(present(d.instruments, d.modes[i].instrument_id));
        }
        lemma_modes_change(d, e);
    }
}

proof fn lemma_neighbour(modes: Seq<ModeView>, m: ModeView, up: bool, n: int)
    requires
        0 <= n <= modes.len(),
    ensures
        match neighbour(modes, m, up, n) {
            Some(k) => {
                &&& 0 <= k < n
                &&& modes[k].instrument_id == m.instrument_id
                &&& if up {
                    crate::records::shown_before(modes[k], m)
                } else {
                    crate::records::shown_before(m, modes[k])
                }
                &&& forall|j: int|
                    0 <= j < n && (#[trigger] modes[j]).instrument_id == m.instrument_id && (if up {
                        crate::records::shown_before(modes[j], m)
                    } else {
                        crate::records::shown_before(m, modes[j])
                    }) ==> if up {
                        !crate::records::shown_before(modes[k], modes[j])
                    } else {
                        !crate::records::shown_before(modes[j], modes[k])
                    }
            },
            None => forall|j: int|
                0 <= j < n && (#[trigger] modes[j]).instrument_id == m.instrument_id ==> if up {
                    !crate::records::shown_before(modes[j], m)
                } else {
                    !crate::records::shown_before(m, modes[j])
                },
        },
    decreases n,
{
    if n > 0 {
        lemma_neighbour(modes, m, up, n - 1);
    }
}

/// A procedure that moves changes places with the one displayed next to it:
/// nothing of the same instrument stood between them, the two have each
/// other's positions afterwards, and every other procedure keeps its own.
pub proof fn a_moved_procedure_swaps_with_its_neighbour(
    d: DbView,
    id: i64,
    direction: Seq<char>,
    now: Seq<char>,
)
    requires
        d.wf(),
        mode_moved(d, id, direction, now) matches Ok((_, true)),
    ensures
        ({
            let e = mode_moved(d, id, direction, now)->Ok_0.0;
            let i = at(d.modes, id, 0);
            exists|k: int|
                {
                    &&& 0 <= k < d.modes.len()
                    &&& k != i
                    &&& #[trigger] d.modes[k].instrument_id == d.modes[i].instrument_id
                    &&& e.modes[i].position == d.modes[k].position
                    &&& e.modes[k].position == d.modes[i].position
                    &&& forall|j: int|
                        0 <= j < d.modes.len() && j != i && j != k ==> #[trigger] e.modes[j]
                            == d.modes[j]
                    &&& forall|j: int|
                        0 <= j < d.modes.len() && (#[trigger] d.modes[j]).instrument_id
                            == d.modes[i].instrument_id ==> if direction == "up"@ {
                            !(crate::records::shown_before(d.modes[k], d.modes[j])
                                && crate::records::shown_before(d.modes[j], d.modes[i]))
                        } else {
                            !(crate::records::shown_before(d.modes[i], d.modes[j])
                                && crate::records::shown_before(d.modes[j], d.modes[k]))
                        }
                }
        }),
{
    let i = at(d.modes, id, 0);
    lemma_at(d.modes, id, 0);
    let up = direction == "up"@;
    lemma_neighbour(d.modes, d.modes[i], up, d.modes.len() as int);
    let k = neighbour(d.modes, d.modes[i], up, d.modes.len() as int)->0;
    assert(d.modes[k].instrument_id == d.modes[i].instrument_id);
}

/// Deleting a procedure keeps the tables sound.
pub proof fn deleting_a_procedure_keeps_the_tables_sound(d: DbView, id: i64)
    requires
        d.wf(),
    ensures
        mode_deleted(d, id).0.wf(),
        mode_deleted(d, id).0.measurements.len() == d.measurements.len(),
{
    let e = mode_deleted(d, id).0;
    if present(d.modes, id) {
        let g = mode_is_not(id);
        lemma_filtered(d.modes, g);
        lemma_filtered_keys(d.modes, g);
        assert forall|k: i64| k != id && present(d.modes, k) implies #[trigger] present(
            e.modes,
            k,
        ) by {
            lemma_kept_present(d.modes, g, k);
        }
        lemma_same_keys(d.measurements, e.measurements);
        assert(e.modes_linked()) by {
            assert forall|i: int| 0 <= i < e.modes.len() implies present(
                e.instruments,
                (#[trigger] e.modes[i]).instrument_id,
            ) by {
                assert(e.modes.contains(e.modes[i]));
                let a = d.modes.index_of(e.modes[i]);
                assert(present(d.instruments, d.modes[a].instrument_id));
            }
        }
        assert(e.measurements_linked()) by {
            assert forall|i: int| 0 <= i < e.measurements.len() implies {
                let x = #[trigger] e.measurements[i];
                &&& present(e.batteries, x.battery_id)
                &&& x.instrument_id matches Some(k) ==> present(e.instruments, k)
                &&& x.mode_id matches Some(k) ==> present(e.modes, k)
            } by {
                assert(e.measurements[i] == without_mode(id)(d.measurements[i]));
            }
        }
        assert(e.bought_once()) by {
            assert forall|i: int, j: int|
                0 <= i < j < e.measurements.len() && bought(#[trigger] e.measurements[i]) && bought(
                    #[trigger] e.measurements[j],
                ) implies e.measurements[i].battery_id != e.measurements[j].battery_id by {
                assert(bought(d.measurements[i]) && bought(d.measurements[j]));
            }
        }
    }
}

// ── Settings ────────────────────────────────────────────────────────────

proof fn lemma_setting_at(s: Seq<SettingView>, key: Seq<char>, from: int)
    requires
        0 <= from <= s.len(),
    ensures
        from <= setting_at(s, key, from) <= s.len(),
        setting_at(s, key, from) < s.len() ==> s[setting_at(s, key, from)].key == key,
        forall|i: int| from <= i < setting_at(s, key, from) ==> (#[trigger] s[i]).key != key,
    decreases s.len() - from,
{
    if from < s.len() && s[from].key != key {
        lemma_setting_at(s, key, from + 1);
    }
}

/// Saving and removing a setting keeps the tables sound.
pub proof fn settings_keep_the_tables_sound(
    d: DbView,
    key: Seq<char>,
    value: Seq<char>,
    now: Seq<char>,
)
    requires
        d.wf(),
    ensures
        setting_saved(d, key, value, now).wf(),
        setting_deleted(d, key).wf(),
{
    lemma_setting_at(d.settings, key, 0);
    let e = setting_saved(d, key, value, now);
    assert(e.settings_distinct()) by {
        assert forall|i: int, j: int| 0 <= i < j < e.settings.len() implies (
        #[trigger] e.settings[i]).key != (#[trigger] e.settings[j]).key by {
            if j < d.settings.len() {
                assert(d.settings[i].key != d.settings[j].key);
            }
        }
    }
    lemma_settings_filtered(d.settings, setting_is_not(key));
}

proof fn lemma_settings_filtered(s: Seq<SettingView>, f: spec_fn(SettingView) -> bool)
    requires
        forall|i: int, j: int|
            0 <= i < j < s.len() ==> (#[trigger] s[i]).key != (#[trigger] s[j]).key,
    ensures
        forall|i: int, j: int|
            0 <= i < j < s.filter(f).len() ==> (#[trigger] s.filter(f)[i]).key != (
            #[trigger] s.filter(f)[j]).key,
    decreases s.len(),
{
    reveal(Seq::filter);
    if s.len() > 0 {
        let d = s.drop_last();
        assert forall|i: int, j: int| 0 <= i < j < d.len() implies (#[trigger] d[i]).key != (
        #[trigger] d[j]).key by {
            assert(s[i].key != s[j].key);
        }
        lemma_settings_filtered(d, f);
        lemma_filtered(d, f);
        let k = s.filter(f);
        let kd = d.filter(f);
        assert forall|i: int, j: int| 0 <= i < j < k.len() implies (#[trigger] k[i]).key != (
        #[trigger] k[j]).key by {
            if j < kd.len() {
                assert(kd[i].key != kd[j].key);
            } else {
                assert(kd.contains(kd[i]));
                let a = d.index_of(kd[i]);
                assert(s[a].key != s[s.len() - 1].key);
            }
        }
    }
}

/// What is saved under a key is what is read back, and nothing else under any
/// key changes; what is removed is no longer there.
pub proof fn a_saved_setting_reads_back(
    d: DbView,
    key: Seq<char>,
    value: Seq<char>,
    now: Seq<char>,
    other: Seq<char>,
)
    requires
        d.wf(),
        other != key,
    ensures
        crate::reads::stored(setting_saved(d, key, value, now).settings, key) == Some(value),
        crate::reads::stored(setting_saved(d, key, value, now).settings, other)
            == crate::reads::stored(d.settings, other),
        crate::reads::stored(setting_deleted(d, key).settings, key) is None,
        crate::reads::stored(setting_deleted(d, key).settings, other) == crate::reads::stored(
            d.settings,
            other,
        ),
{
    lemma_setting_at(d.settings, key, 0);
    let e = setting_saved(d, key, value, now);
    let i = setting_at(d.settings, key, 0);
    if i < d.settings.len() {
        lemma_stored_updated(d.settings, i, e.settings[i], other);
    } else {
        assert(e.settings.drop_last() =~= d.settings);
    }
    lemma_stored_filtered(d.settings, key, other);
}

proof fn lemma_stored_updated(s: Seq<SettingView>, i: int, x: SettingView, other: Seq<char>)
    requires
        0 <= i < s.len(),
        x.key == s[i].key,
        x.key != other,
        forall|j: int, k: int|
            0 <= j < k < s.len() ==> (#[trigger] s[j]).key != (#[trigger] s[k]).key,
    ensures
        crate::reads::stored(s.update(i, x), x.key) == Some(x.value),
        crate::reads::stored(s.update(i, x), other) == crate::reads::stored(s, other),
    decreases s.len(),
{
    let u = s.update(i, x);
    if i == s.len() - 1 {
        assert(u.drop_last() =~= s.drop_last());
    } else {
        let d = s.drop_last();
        assert(u.drop_last() =~= d.update(i, x));
        assert(s[i].key != s[s.len() - 1].key);
        assert forall|j: int, k: int| 0 <= j < k < d.len() implies (#[trigger] d[j]).key != (
        #[trigger] d[k]).key by {
            assert(s[j].key != s[k].key);
        }
        lemma_stored_updated(d, i, x, other);
    }
}

pub proof fn lemma_stored_filtered(s: Seq<SettingView>, key: Seq<char>, other: Seq<char>)
    requires
        other != key,
    ensures
        crate::reads::stored(s.filter(setting_is_not(key)), key) is None,
        crate::reads::stored(s.filter(setting_is_not(key)), other) == crate::reads::stored(
            s,
            other,
        ),
    decreases s.len(),
{
    reveal(Seq::filter);
    if s.len() > 0 {
        lemma_stored_filtered(s.drop_last(), key, other);
        let k = s.filter(setting_is_not(key));
        if s.last().key != key {
            assert(k.drop_last() =~= s.drop_last().filter(setting_is_not(key)));
        }
    }
}

// ── Sets ────────────────────────────────────────────────────────────────

/// A battery that is not outside the pool: it is in it, or not there at all.
pub open spec fn pooled(d: DbView, pool: Seq<char>, id: i64) -> bool {
    row(d.batteries, id) matches Some(b) ==> in_pool(b, pool)
}

/// Moving a battery to the pool brings it there, and takes none out of it.
proof fn lemma_moved_to_pool(d: DbView, id: i64, pool: Seq<char>, now: Seq<char>, other: i64)
    requires
        d.wf(),
        trimmed(pool) == pool,
    ensures
        moved(d, id, pool, now) matches Ok((e, _)) ==> {
            &&& pooled(e, pool, id)
            &&& pooled(d, pool, other) ==> pooled(e, pool, other)
            &&& e.batteries.len() == d.batteries.len()
        },
{
    if let Ok((e, _)) = moved(d, id, pool, now) {
        let i = at(d.batteries, id, 0);
        lemma_at(d.batteries, id, 0);
        lemma_at(d.batteries, other, 0);
        if i < d.batteries.len() && pool != d.batteries[i].location {
            lemma_at_update(d.batteries, i, e.batteries[i], id);
            lemma_at_update(d.batteries, i, e.batteries[i], other);
        }
    }
}

proof fn lemma_gathered(
    d: DbView,
    members: Seq<i64>,
    pool: Seq<char>,
    now: Seq<char>,
    n: int,
    other: i64,
)
    requires
        d.wf(),
        trimmed(pool) == pool,
        0 <= n <= members.len(),
    ensures
        gathered(d, members, pool, now, n) matches Ok((e, _)) ==> {
            &&& e.wf()
            &&& e.matches == d.matches
            &&& pooled(d, pool, other) ==> pooled(e, pool, other)
            &&& members.take(n).contains(other) ==> pooled(e, pool, other)
        },
    decreases n,
{
    if n > 0 {
        lemma_gathered(d, members, pool, now, n - 1, other);
        let id = members[n - 1];
        if members.take(n).contains(other) {
            let i = members.take(n).index_of(other);
            if i < n - 1 {
                assert(members.take(n - 1)[i] == other);
            }
        }
        if let Ok((e, _)) = gathered(d, members, pool, now, n - 1) {
            moving_keeps_the_tables_sound(e, id, pool, now);
            lemma_moved_to_pool(e, id, pool, now, other);
            lemma_moved_to_pool(e, id, pool, now, id);
        }
    }
}

proof fn lemma_closed(d: DbView, k: int, now: Seq<char>)
    requires
        d.wf(),
        0 <= k < d.matches.len(),
    ensures
        closed_match(d, k, now).wf(),
{
    let e = closed_match(d, k, now);
    lemma_same_keys(d.matches, e.matches);
    assert forall|i: int, j: int|
        0 <= i < e.matches.len() && 0 <= j < e.matches[i].battery_ids.len() implies present(
        e.batteries,
        #[trigger] e.matches[i].battery_ids[j],
    ) by {
        assert(present(d.batteries, d.matches[i].battery_ids[j]));
    }
}

proof fn lemma_sets(
    d: DbView,
    id: i64,
    pool: Seq<char>,
    now: Seq<char>,
    n: int,
    k: int,
    other: i64,
)
    requires
        d.wf(),
        trimmed(pool) == pool,
        0 <= n <= d.matches.len(),
        0 <= k < d.matches.len(),
    ensures
        sets_returned(d, id, pool, now, n) matches Ok((e, _)) ==> {
            &&& e.wf()
            &&& e.matches.len() == d.matches.len()
            &&& e.matches[k].battery_ids == d.matches[k].battery_ids
            &&& pooled(d, pool, other) ==> pooled(e, pool, other)
            &&& k >= n ==> e.matches[k] == d.matches[k]
            &&& k < n && d.matches[k].returned_at is None && d.matches[k].battery_ids.contains(id)
                ==> {
                &&& e.matches[k].returned_at == Some(now)
                &&& d.matches[k].battery_ids.contains(other) ==> pooled(e, pool, other)
            }
            &&& d.matches[k].returned_at is Some || !d.matches[k].battery_ids.contains(id)
                ==> e.matches[k] == d.matches[k]
        },
    decreases n,
{
    if n > 0 {
        lemma_sets(d, id, pool, now, n - 1, k, other);
        lemma_sets(d, id, pool, now, n - 1, n - 1, other);
        if let Ok((e, _)) = sets_returned(d, id, pool, now, n - 1) {
            let m = e.matches[n - 1];
            if m.returned_at is None && m.battery_ids.contains(id) {
                let len = m.battery_ids.len() as int;
                lemma_gathered(e, m.battery_ids, pool, now, len, other);
                assert(m.battery_ids.take(len) =~= m.battery_ids);
                if let Ok((f, _)) = gathered(e, m.battery_ids, pool, now, len) {
                    lemma_closed(f, n - 1, now);
                }
            }
        }
    }
}

/// Moving a battery, with its set where it goes to the pool, keeps the tables
/// sound.
pub proof fn moving_a_set_keeps_the_tables_sound(
    d: DbView,
    id: i64,
    location: Seq<char>,
    pool: Seq<char>,
    now: Seq<char>,
)
    requires
        d.wf(),
        trimmed(pool) == pool,
    ensures
        moved_with_set(d, id, location, pool, now) matches Ok((e, _)) ==> e.wf(),
{
    moving_keeps_the_tables_sound(d, id, location, now);
    if let Ok((e, Some(b))) = moved(d, id, location, now) {
        if in_pool(b, pool) && e.matches.len() > 0 {
            lemma_sets(e, id, pool, now, e.matches.len() as int, 0, id);
        }
    }
}

/// Returning one battery of a set to the pool, whichever way it is moved
/// there, returns the whole set: its match is closed, and no member that is
/// still there is left outside the pool.
pub proof fn returning_one_returns_the_whole_set(
    d: DbView,
    id: i64,
    location: Seq<char>,
    pool: Seq<char>,
    now: Seq<char>,
    k: int,
    member: i64,
)
    requires
        d.wf(),
        trimmed(pool) == pool,
        present(d.batteries, id),
        same_ignoring_case(trimmed(location), pool),
        0 <= k < d.matches.len(),
        d.matches[k].returned_at is None,
        d.matches[k].battery_ids.contains(id),
        d.matches[k].battery_ids.contains(member),
    ensures
        moved_with_set(d, id, location, pool, now) matches Ok((e, _)) ==> {
            &&& e.matches[k].returned_at == Some(now)
            &&& pooled(e, pool, member)
        },
{
    moving_keeps_the_tables_sound(d, id, location, now);
    lemma_at(d.batteries, id, 0);
    if let Ok((e, Some(b))) = moved(d, id, location, now) {
        assert(b.location == trimmed(location));
        lemma_sets(e, id, pool, now, e.matches.len() as int, k, member);
    }
}

/// Whether nothing about the batteries has changed but where they are.
pub open spec fn only_moved(d: DbView, e: DbView) -> bool {
    &&& e.batteries.len() == d.batteries.len()
    &&& forall|i: int|
        0 <= i < d.batteries.len() ==> (#[trigger] e.batteries[i]) == (BatteryView {
            location: e.batteries[i].location,
            updated_at: e.batteries[i].updated_at,
            ..d.batteries[i]
        })
}

proof fn lemma_gathered_only(d: DbView, members: Seq<i64>, pool: Seq<char>, now: Seq<char>, n: int)
    ensures
        gathered(d, members, pool, now, n) matches Ok((e, _)) ==> only_moved(d, e),
    decreases n,
{
    if n > 0 {
        lemma_gathered_only(d, members, pool, now, n - 1);
        if let Ok((e, _)) = gathered(d, members, pool, now, n - 1) {
            lemma_at(e.batteries, members[n - 1], 0);
        }
    }
}

proof fn lemma_sets_only(d: DbView, id: i64, pool: Seq<char>, now: Seq<char>, n: int)
    ensures
        sets_returned(d, id, pool, now, n) matches Ok((e, _)) ==> only_moved(d, e),
    decreases n,
{
    if n > 0 {
        lemma_sets_only(d, id, pool, now, n - 1);
        if let Ok((e, _)) = sets_returned(d, id, pool, now, n - 1) {
            let members = e.matches[n - 1].battery_ids;
            lemma_gathered_only(e, members, pool, now, members.len() as int);
        }
    }
}

/// Moving a battery, with its set or without, changes nothing about any
/// battery but its location.
pub proof fn moving_changes_only_locations(
    d: DbView,
    id: i64,
    location: Seq<char>,
    pool: Seq<char>,
    now: Seq<char>,
)
    ensures
        moved_with_set(d, id, location, pool, now) matches Ok((e, _)) ==> only_moved(d, e),
{
    lemma_at(d.batteries, id, 0);
    if let Ok((e, _)) = moved(d, id, location, now) {
        lemma_sets_only(e, id, pool, now, e.matches.len() as int);
    }
}

/// What is back stays back while more batteries come to the pool, and a match
/// is closed only with its whole set back.
pub proof fn lemma_more_come_back(
    d: DbView,
    id: i64,
    location: Seq<char>,
    pool: Seq<char>,
    now: Seq<char>,
    k: int,
    member: i64,
)
    requires
        d.wf(),
        trimmed(pool) == pool,
        same_ignoring_case(trimmed(location), pool),
        0 <= k < d.matches.len(),
        d.matches[k].battery_ids.contains(member),
        d.matches[k].returned_at is Some ==> pooled(d, pool, member),
    ensures
        moved_with_set(d, id, location, pool, now) matches Ok((e, _)) ==> {
            &&& e.wf()
            &&& e.matches.len() == d.matches.len()
            &&& e.matches[k].battery_ids == d.matches[k].battery_ids
            &&& d.matches[k].returned_at is Some ==> e.matches[k].returned_at is Some
            &&& e.matches[k].returned_at is Some ==> pooled(e, pool, member)
        },
{
    moving_keeps_the_tables_sound(d, id, location, now);
    lemma_at(d.batteries, id, 0);
    lemma_at(d.batteries, member, 0);
    if let Ok((e, b)) = moved(d, id, location, now) {
        let i = at(d.batteries, id, 0);
        if i < d.batteries.len() && trimmed(location) != d.batteries[i].location {
            lemma_at_update(d.batteries, i, e.batteries[i], id);
            lemma_at_update(d.batteries, i, e.batteries[i], member);
        }
        assert(pooled(d, pool, member) ==> pooled(e, pool, member));
        if b is Some {
            lemma_sets(e, id, pool, now, e.matches.len() as int, k, member);
        }
    }
}

/// Moving a battery anywhere but to the pool touches no match.
pub proof fn other_moves_leave_matches_alone(
    d: DbView,
    id: i64,
    location: Seq<char>,
    pool: Seq<char>,
    now: Seq<char>,
)
    requires
        !same_ignoring_case(trimmed(location), pool),
    ensures
        moved_with_set(d, id, location, pool, now) matches Ok((e, (_, ids))) ==> e.matches
            == d.matches && ids.len() == 0,
{
    lemma_at(d.batteries, id, 0);
}

/// Returning a match by its own button closes it and brings every member that
/// is still there back; the tables stay sound.
pub proof fn returning_a_match_brings_its_set_back(
    d: DbView,
    id: i64,
    pool: Seq<char>,
    now: Seq<char>,
    member: i64,
)
    requires
        d.wf(),
        trimmed(pool) == pool,
        present(d.matches, id),
        row(d.matches, id)->0.returned_at is None,
        row(d.matches, id)->0.battery_ids.contains(member),
    ensures
        match_returned(d, id, pool, now) matches Ok((e, _)) ==> {
            &&& e.wf()
            &&& row(e.matches, id)->0.returned_at == Some(now)
            &&& pooled(e, pool, member)
        },
{
    let k = at(d.matches, id, 0);
    lemma_at(d.matches, id, 0);
    let members = d.matches[k].battery_ids;
    lemma_gathered(d, members, pool, now, members.len() as int, member);
    assert(members.take(members.len() as int) =~= members);
    if let Ok((e, _)) = gathered(d, members, pool, now, members.len() as int) {
        lemma_closed(e, k, now);
        lemma_at_update(e.matches, k, closed_match(e, k, now).matches[k], id);
    }
}

/// Returning a match keeps the tables sound.
pub proof fn returning_a_match_keeps_the_tables_sound(
    d: DbView,
    id: i64,
    pool: Seq<char>,
    now: Seq<char>,
)
    requires
        d.wf(),
        trimmed(pool) == pool,
    ensures
        match_returned(d, id, pool, now) matches Ok((e, _)) ==> e.wf(),
{
    let k = at(d.matches, id, 0);
    lemma_at(d.matches, id, 0);
    if k < d.matches.len() {
        let members = d.matches[k].battery_ids;
        lemma_gathered(d, members, pool, now, members.len() as int, id);
        if let Ok((e, _)) = gathered(d, members, pool, now, members.len() as int) {
            lemma_closed(e, k, now);
        }
    }
}

proof fn lemma_handed_out(
    d: DbView,
    ids: Seq<i64>,
    location: Seq<char>,
    now: Seq<char>,
    n: int,
    other: i64,
)
    requires
        d.wf(),
        0 <= n <= ids.len(),
    ensures
        handed_out(d, ids, location, now, n) matches Ok(e) ==> {
            &&& e.wf()
            &&& e.matches == d.matches
            &&& e.last_match == d.last_match
            &&& forall|k: i64| #[trigger] present(e.batteries, k) == present(d.batteries, k)
            &&& ids.take(n).contains(other) ==> present(d.batteries, other) && row(
                e.batteries,
                other,
            )->0.location == trimmed(location)
            &&& !ids.take(n).contains(other) ==> row(e.batteries, other) == row(d.batteries, other)
        },
    decreases n,
{
    if n > 0 {
        lemma_handed_out(d, ids, location, now, n - 1, other);
        let id = ids[n - 1];
        if ids.take(n).contains(other) {
            let i = ids.take(n).index_of(other);
            if i < n - 1 {
                assert(ids.take(n - 1)[i] == other);
            }
        } else {
            assert(ids.take(n)[n - 1] == id);
            if ids.take(n - 1).contains(other) {
                let i = ids.take(n - 1).index_of(other);
                assert(ids.take(n)[i] == other);
            }
        }
        if let Ok(e) = handed_out(d, ids, location, now, n - 1) {
            moving_keeps_the_tables_sound(e, id, location, now);
            if let Ok((f, Some(_))) = moved(e, id, location, now) {
                let i = at(e.batteries, id, 0);
                lemma_at(e.batteries, id, 0);
                lemma_at(e.batteries, other, 0);
                if trimmed(location) != e.batteries[i].location {
                    lemma_at_update(e.batteries, i, f.batteries[i], id);
                    lemma_at_update(e.batteries, i, f.batteries[i], other);
                    lemma_same_keys(e.batteries, f.batteries);
                    let k = at(e.batteries, other, 0);
                    if other != id && k < e.batteries.len() {
                        assert(e.batteries[k].key() == other);
                        assert(k != i);
                    }
                }
            }
        }
    } else {
        assert(ids.take(n).len() == 0);
    }
}

/// Handing out a set keeps the tables sound, moves exactly its members, and
/// records an open match of them.
pub proof fn handing_out_moves_the_whole_set(
    d: DbView,
    location: Seq<char>,
    requested_type: Seq<char>,
    draw: Seq<char>,
    ids: Seq<i64>,
    now: Seq<char>,
    other: i64,
)
    requires
        d.wf(),
    ensures
        match_created(d, location, requested_type, draw, ids, now) matches Ok((e, m)) ==> {
            &&& e.wf()
            &&& e.matches == d.matches.push(m)
            &&& m.battery_ids == ids
            &&& m.returned_at is None
            &&& ids.contains(other) ==> row(e.batteries, other)->0.location == trimmed(location)
            &&& !ids.contains(other) ==> row(e.batteries, other) == row(d.batteries, other)
        },
{
    lemma_handed_out(d, ids, location, now, ids.len() as int, other);
    assert(ids.take(ids.len() as int) =~= ids);
    if let Ok((e, m)) = match_created(d, location, requested_type, draw, ids, now) {
        let f = handed_out(d, ids, location, now, ids.len() as int)->Ok_0;
        lemma_pushed(f.matches, m);
        assert(keys_given(f.matches, f.last_match));
        assert forall|i: int, j: int|
            0 <= i < e.matches.len() && 0 <= j < e.matches[i].battery_ids.len() implies present(
            e.batteries,
            #[trigger] e.matches[i].battery_ids[j],
        ) by {
            if i < f.matches.len() {
                assert(present(f.batteries, f.matches[i].battery_ids[j]));
            } else {
                lemma_handed_out(d, ids, location, now, ids.len() as int, ids[j]);
                assert(ids.contains(ids[j]));
            }
        }
    }
}

/// Deleting a match, or an entry of the location history, moves no battery and
/// keeps the tables sound.
pub proof fn deleting_records_moves_no_battery(d: DbView, id: i64)
    requires
        d.wf(),
    ensures
        match_deleted(d, id).0.wf(),
        match_deleted(d, id).0.batteries == d.batteries,
        match_deleted(d, id).0.history == d.history,
        entry_deleted(d, id).0.wf(),
        entry_deleted(d, id).0.batteries == d.batteries,
        entry_deleted(d, id).0.matches == d.matches,
{
    lemma_fewer_moves(d, entry_is_not(id));
    let e = match_deleted(d, id).0;
    let f = match_is_not(id);
    lemma_filtered(d.matches, f);
    lemma_filtered_keys(d.matches, f);
    if present(d.matches, id) {
        assert forall|i: int, j: int|
            0 <= i < e.matches.len() && 0 <= j < e.matches[i].battery_ids.len() implies present(
            e.batteries,
            #[trigger] e.matches[i].battery_ids[j],
        ) by {
            assert(e.matches.contains(e.matches[i]));
            let a = d.matches.index_of(e.matches[i]);
            assert(d.matches[a].battery_ids[j] == e.matches[i].battery_ids[j]);
        }
    }
}

} // verus!
