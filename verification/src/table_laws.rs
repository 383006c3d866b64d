//! What every change does to the tables, told row by row.

use vstd::prelude::*;
use crate::db::{lemma_at, DbErrorView, DbView};
use crate::records::{
    instrument_added, instrument_deleted, instrument_updated, measured, mode_added, mode_deleted,
    mode_moved, mode_updated, reading_deleted, ReadingView,
};
use crate::reads::log_of;
use crate::rows::{BatteryView, LocationEntryView, MatchView, MeasurementView, ModeView};
use crate::sets::{match_created, match_deleted, entry_deleted};
use crate::text::{trimmed, uppercased};
use crate::writes::{
    created, moved, purged, reset_record, restored, soft_deleted, updated, without_battery,
};

verus! {

/// Whether every battery but one is as it was, in the same row.
pub open spec fn others_stay(d: DbView, e: DbView, i: int) -> bool {
    d.batteries.len() == e.batteries.len() && forall|j: int|
        0 <= j < d.batteries.len() && j != i ==> #[trigger] e.batteries[j] == d.batteries[j]
}

/// Whether nothing but the batteries and their moves has changed.
pub open spec fn rest_stays(d: DbView, e: DbView) -> bool {
    &&& e.measurements == d.measurements
    &&& e.instruments == d.instruments
    &&& e.modes == d.modes
    &&& e.matches == d.matches
    &&& e.settings == d.settings
}

/// Whether one move was recorded behind all others, under a new number.
pub open spec fn one_move_more(
    d: DbView,
    e: DbView,
    id: i64,
    location: Seq<char>,
    now: Seq<char>,
) -> bool {
    &&& e.history.len() == d.history.len() + 1
    &&& e.history.drop_last() == d.history
    &&& e.history.last().battery_id == id
    &&& e.history.last().location == location
    &&& e.history.last().moved_at == now
    &&& forall|j: int| 0 <= j < d.history.len() ==> (#[trigger] d.history[j]).id < e.history.last().id
}

proof fn lemma_row(d: DbView, id: i64, i: int)
    requires
        d.wf(),
        0 <= i < d.batteries.len(),
        d.batteries[i].id == id,
    ensures
        crate::db::at(d.batteries, id, 0) == i,
{
    lemma_at(d.batteries, id, 0);
    let k = crate::db::at(d.batteries, id, 0);
    if k < i {
        assert(d.batteries[k].id == d.batteries[i].id);
    }
}

// ── Batteries ───────────────────────────────────────────────────────────

/// A new battery gets a number that no other has, in a row behind all others,
/// with what was typed about it trimmed and its type in capitals. It is not
/// deleted. Where it has a place, that is recorded as its first move.
pub proof fn a_new_battery_is_added(
    d: DbView,
    id: i64,
    cell_type: Seq<char>,
    nominal_mah: Option<i64>,
    brand: Seq<char>,
    location: Seq<char>,
    notes: Seq<char>,
    now: Seq<char>,
)
    requires
        d.wf(),
    ensures
        match created(d, id, cell_type, nominal_mah, brand, location, notes, now) {
            Ok((e, b)) => {
                &&& forall|j: int| 0 <= j < d.batteries.len() ==> (#[trigger] d.batteries[j]).id != id
                &&& e.batteries == d.batteries.push(b)
                &&& b.id == id
                &&& b.cell_type == uppercased(trimmed(cell_type))
                &&& b.nominal_mah == nominal_mah
                &&& b.brand == trimmed(brand)
                &&& b.location == trimmed(location)
                &&& b.notes == trimmed(notes)
                &&& b.created_at == now
                &&& b.updated_at == now
                &&& b.deleted_at is None
                &&& rest_stays(d, e)
                &&& trimmed(location).len() == 0 ==> e.history == d.history
                &&& trimmed(location).len() > 0 ==> one_move_more(d, e, id, trimmed(location), now)
            },
            Err(DbErrorView::Duplicate) => exists|j: int|
                0 <= j < d.batteries.len() && (#[trigger] d.batteries[j]).id == id,
            Err(_) => trimmed(location).len() > 0 && d.last_history == i64::MAX,
        },
{
    lemma_at(d.batteries, id, 0);
    if let Ok((e, _)) = created(d, id, cell_type, nominal_mah, brand, location, notes, now) {
        assert(e.history.len() > d.history.len() ==> e.history.drop_last() =~= d.history);
    }
}

/// A move changes where one battery is, and nothing else of it or of any other.
/// It is recorded, unless the battery was there already.
pub proof fn a_move_changes_one_place(
    d: DbView,
    id: i64,
    location: Seq<char>,
    now: Seq<char>,
    i: int,
)
    requires
        d.wf(),
        0 <= i < d.batteries.len(),
        d.batteries[i].id == id,
    ensures
        match moved(d, id, location, now) {
            Ok((e, b)) => {
                let was = d.batteries[i];
                &&& b == Some(e.batteries[i])
                &&& others_stay(d, e, i)
                &&& rest_stays(d, e)
                &&& e.batteries[i].location == trimmed(location)
                &&& e.batteries[i].id == id
                &&& e.batteries[i].cell_type == was.cell_type
                &&& e.batteries[i].nominal_mah == was.nominal_mah
                &&& e.batteries[i].brand == was.brand
                &&& e.batteries[i].notes == was.notes
                &&& e.batteries[i].created_at == was.created_at
                &&& e.batteries[i].deleted_at == was.deleted_at
                &&& was.location == trimmed(location) ==> e == d
                &&& was.location != trimmed(location) ==> e.batteries[i].updated_at == now
                    && one_move_more(d, e, id, trimmed(location), now)
            },
            Err(_) => d.batteries[i].location != trimmed(location) && d.last_history == i64::MAX,
        },
{
    lemma_row(d, id, i);
    if let Ok((e, _)) = moved(d, id, location, now) {
        assert(e.history.len() > d.history.len() ==> e.history.drop_last() =~= d.history);
    }
}

/// Editing changes just what was given of one battery: never its number, its
/// place, when it was added or whether it is deleted.
pub proof fn an_edit_changes_what_was_given(
    d: DbView,
    id: i64,
    cell_type: Option<Seq<char>>,
    nominal_mah: Option<Option<i64>>,
    brand: Option<Seq<char>>,
    notes: Option<Seq<char>>,
    now: Seq<char>,
    i: int,
)
    requires
        d.wf(),
        0 <= i < d.batteries.len(),
        d.batteries[i].id == id,
    ensures
        ({
            let (e, b) = updated(d, id, cell_type, nominal_mah, brand, notes, now);
            let was = d.batteries[i];
            let is = e.batteries[i];
            &&& b == Some(is)
            &&& others_stay(d, e, i)
            &&& rest_stays(d, e)
            &&& e.history == d.history
            &&& is.id == id
            &&& is.location == was.location
            &&& is.created_at == was.created_at
            &&& is.deleted_at == was.deleted_at
            &&& cell_type matches Some(t) ==> is.cell_type == uppercased(trimmed(t))
            &&& cell_type is None ==> is.cell_type == was.cell_type
            &&& nominal_mah matches Some(n) ==> is.nominal_mah == n
            &&& nominal_mah is None ==> is.nominal_mah == was.nominal_mah
            &&& brand matches Some(s) ==> is.brand == s
            &&& brand is None ==> is.brand == was.brand
            &&& notes matches Some(s) ==> is.notes == s
            &&& notes is None ==> is.notes == was.notes
        }),
{
    lemma_row(d, id, i);
}

/// Everything that is recorded of a battery.
pub open spec fn forgotten(d: DbView, e: DbView, id: i64) -> bool {
    &&& e.history == d.history.filter(|m: LocationEntryView| m.battery_id != id)
    &&& e.measurements == d.measurements.filter(|m: MeasurementView| m.battery_id != id)
    &&& e.matches.len() == d.matches.len()
    &&& forall|k: int|
        0 <= k < d.matches.len() ==> {
            let was = d.matches[k];
            let is = #[trigger] e.matches[k];
            &&& is.battery_ids == was.battery_ids.filter(|n: i64| n != id)
            &&& is.id == was.id
            &&& is.location == was.location
            &&& is.requested_type == was.requested_type
            &&& is.draw == was.draw
            &&& is.created_at == was.created_at
            &&& is.returned_at == was.returned_at
        }
    &&& e.instruments == d.instruments
    &&& e.modes == d.modes
    &&& e.settings == d.settings
}

proof fn lemma_forgotten(d: DbView, id: i64)
    ensures
        forgotten(d, crate::writes::without_records(d, id), id),
        without_battery(d, id).batteries == d.batteries.filter(|b: BatteryView| b.id != id),
{
    let e = crate::writes::without_records(d, id);
    assert(d.history.filter(crate::writes::move_is_not_of(id)) =~= d.history.filter(
        |m: LocationEntryView| m.battery_id != id,
    )) by {
        lemma_same_filter(
            d.history,
            crate::writes::move_is_not_of(id),
            |m: LocationEntryView| m.battery_id != id,
        );
    }
    lemma_same_filter(
        d.measurements,
        crate::writes::reading_is_not_of(id),
        |m: MeasurementView| m.battery_id != id,
    );
    lemma_same_filter(
        d.batteries,
        crate::writes::battery_is_not(id),
        |b: BatteryView| b.id != id,
    );
    assert forall|k: int| 0 <= k < d.matches.len() implies (
    #[trigger] e.matches[k]).battery_ids == d.matches[k].battery_ids.filter(|n: i64| n != id) by {
        lemma_same_filter(
            d.matches[k].battery_ids,
            crate::writes::is_not(id),
            |n: i64| n != id,
        );
    }
}

/// Two tests that agree keep the same.
pub proof fn lemma_same_filter<T>(s: Seq<T>, p: spec_fn(T) -> bool, q: spec_fn(T) -> bool)
    requires
        forall|x: T| #[trigger] p(x) == q(x),
    ensures
        s.filter(p) == s.filter(q),
    decreases s.len(),
{
    reveal(Seq::filter);
    if s.len() > 0 {
        lemma_same_filter(s.drop_last(), p, q);
    }
}

/// Deleting marks a battery as deleted and leaves the rest of it, its readings
/// and everything else. Only the one with the highest number, if it was never
/// measured, goes for good, and with it all that is recorded of it.
pub proof fn deleting_marks_or_removes(d: DbView, id: i64, now: Seq<char>, i: int)
    requires
        d.wf(),
        0 <= i < d.batteries.len(),
        d.batteries[i].id == id,
    ensures
        ({
            let (e, b) = soft_deleted(d, id, now);
            let was = d.batteries[i];
            let last = (forall|j: int|
                0 <= j < d.batteries.len() ==> (#[trigger] d.batteries[j]).id <= id) && (forall|
                j: int,
            |
                0 <= j < d.measurements.len() ==> (#[trigger] d.measurements[j]).battery_id != id);
            if was.deleted_at is Some {
                e == d && (b matches Some(x) && x.hard_deleted == Some(false))
            } else if last {
                &&& e.batteries == d.batteries.filter(|b: BatteryView| b.id != id)
                &&& forgotten(d, e, id)
                &&& (b matches Some(x) && x.hard_deleted == Some(true))
            } else {
                &&& others_stay(d, e, i)
                &&& rest_stays(d, e)
                &&& e.history == d.history
                &&& e.batteries[i].deleted_at == Some(now)
                &&& e.batteries[i].id == id
                &&& e.batteries[i].cell_type == was.cell_type
                &&& e.batteries[i].nominal_mah == was.nominal_mah
                &&& e.batteries[i].brand == was.brand
                &&& e.batteries[i].location == was.location
                &&& e.batteries[i].notes == was.notes
                &&& e.batteries[i].created_at == was.created_at
                &&& (b matches Some(x) && x.hard_deleted == Some(false))
            }
        }),
{
    lemma_row(d, id, i);
    lemma_forgotten(d, id);
    if crate::writes::has_readings(d, id) {
        let j = choose|j: int|
            0 <= j < d.measurements.len() && (#[trigger] d.measurements[j]).battery_id == id;
        assert(d.measurements[j].battery_id == id);
    }
}

/// Only a deleted battery that was never measured can be removed for good, and
/// with it goes all that is recorded of it and nothing else.
pub proof fn purging_removes_one(d: DbView, id: i64, i: int)
    requires
        d.wf(),
        0 <= i < d.batteries.len(),
        d.batteries[i].id == id,
    ensures
        purged(d, id) is Ok <==> d.batteries[i].deleted_at is Some && forall|j: int|
            0 <= j < d.measurements.len() ==> (#[trigger] d.measurements[j]).battery_id != id,
        purged(d, id) matches Ok(e) ==> e.batteries == d.batteries.filter(
            |b: BatteryView| b.id != id,
        ) && forgotten(d, e, id),
{
    lemma_row(d, id, i);
    lemma_forgotten(d, id);
    if crate::writes::has_readings(d, id) {
        let j = choose|j: int|
            0 <= j < d.measurements.len() && (#[trigger] d.measurements[j]).battery_id == id;
        assert(d.measurements[j].battery_id == id);
    }
}

/// Restoring takes the mark off a deleted battery and changes nothing else.
pub proof fn restoring_takes_the_mark_off(d: DbView, id: i64, now: Seq<char>, i: int)
    requires
        d.wf(),
        0 <= i < d.batteries.len(),
        d.batteries[i].id == id,
    ensures
        ({
            let (e, b) = restored(d, id, now);
            let was = d.batteries[i];
            &&& others_stay(d, e, i)
            &&& rest_stays(d, e)
            &&& e.history == d.history
            &&& e.batteries[i].deleted_at is None
            &&& e.batteries[i].id == id
            &&& e.batteries[i].cell_type == was.cell_type
            &&& e.batteries[i].nominal_mah == was.nominal_mah
            &&& e.batteries[i].brand == was.brand
            &&& e.batteries[i].location == was.location
            &&& e.batteries[i].notes == was.notes
            &&& e.batteries[i].created_at == was.created_at
            &&& b == Some(e.batteries[i])
        }),
{
    lemma_row(d, id, i);
}

/// Clearing a record leaves the number and the type of a battery, as if it had
/// just been added, and one move that says so; all else that was recorded of it
/// goes, and nothing of any other battery.
pub proof fn clearing_leaves_number_and_type(d: DbView, id: i64, now: Seq<char>, i: int)
    requires
        d.wf(),
        0 <= i < d.batteries.len(),
        d.batteries[i].id == id,
    ensures
        match reset_record(d, id, now) {
            Ok((e, b)) => {
                let is = e.batteries[i];
                &&& b == Some(is)
                &&& others_stay(d, e, i)
                &&& is.id == id
                &&& is.cell_type == d.batteries[i].cell_type
                &&& is.nominal_mah is None
                &&& is.brand.len() == 0
                &&& is.location.len() == 0
                &&& is.notes.len() == 0
                &&& is.created_at == now
                &&& is.deleted_at is None
                &&& forgotten(d, (DbView { history: e.history.drop_last(), ..e }), id)
                &&& e.history.last().battery_id == id
                &&& e.history.last().location == "Record cleared"@
                &&& e.history.last().moved_at == now
            },
            Err(_) => d.last_history == i64::MAX,
        },
{
    lemma_row(d, id, i);
    lemma_forgotten(d, id);
    if let Ok((e, _)) = reset_record(d, id, now) {
        let f = crate::writes::without_records(d, id);
        assert(e.history.drop_last() =~= f.history);
    }
}

// ── Readings ────────────────────────────────────────────────────────────

/// A reading is added behind all others, under a new number, and says what was
/// read; a purchase takes the place of an earlier one of the same battery, and
/// no other reading is lost. It is refused where its kind is unknown, or where
/// it speaks of an instrument or a procedure that is not there.
pub proof fn a_reading_is_added(d: DbView, id: i64, r: ReadingView, now: Seq<char>, i: int)
    requires
        d.wf(),
        0 <= i < d.batteries.len(),
        d.batteries[i].id == id,
        d.last_measurement < i64::MAX,
    ensures
        ({
            let known = r.kind == "bought"@ || r.kind == "charged"@ || r.kind == "analysed"@;
            let linked = (r.instrument_id matches Some(k) ==> exists|j: int|
                0 <= j < d.instruments.len() && (#[trigger] d.instruments[j]).id == k) && (
            r.mode_id matches Some(k) ==> exists|j: int|
                0 <= j < d.modes.len() && (#[trigger] d.modes[j]).id == k);
            &&& measured(d, id, r, now) is Ok <==> known && linked
            &&& measured(d, id, r, now) matches Ok((e, m)) ==> {
                let x = e.measurements.last();
                &&& m == Some(x)
                &&& e.batteries == d.batteries
                &&& e.history == d.history
                &&& e.instruments == d.instruments
                &&& e.modes == d.modes
                &&& e.matches == d.matches
                &&& e.settings == d.settings
                &&& e.measurements.drop_last() == (if r.kind == "bought"@ {
                    d.measurements.filter(
                        |m: MeasurementView| m.battery_id != id || m.kind != "bought"@,
                    )
                } else {
                    d.measurements
                })
                &&& forall|j: int|
                    0 <= j < d.measurements.len() ==> (#[trigger] d.measurements[j]).id < x.id
                &&& x.battery_id == id
                &&& x.kind == r.kind
                &&& x.measured_at == r.measured_at
                &&& x.capacity_mah == r.capacity_mah
                &&& x.ir_mohm == r.ir_mohm
                &&& x.instrument_id == r.instrument_id
                &&& x.mode_id == r.mode_id
                &&& x.discharge_ma == r.discharge_ma
                &&& x.charge_ma == r.charge_ma
                &&& x.notes == trimmed(r.notes)
                &&& x.created_at == now
            }
        }),
{
    lemma_row(d, id, i);
    if let Some(k) = r.instrument_id {
        lemma_at(d.instruments, k, 0);
    }
    if let Some(k) = r.mode_id {
        lemma_at(d.modes, k, 0);
    }
    lemma_same_filter(
        d.measurements,
        crate::records::is_not_bought_by(id),
        |m: MeasurementView| m.battery_id != id || m.kind != "bought"@,
    );
    if let Ok((e, _)) = measured(d, id, r, now) {
        let kept = if r.kind == "bought"@ {
            d.measurements.filter(
                |m: MeasurementView| m.battery_id != id || m.kind != "bought"@,
            )
        } else {
            d.measurements
        };
        assert(e.measurements.drop_last() =~= kept);
    }
}

/// Deleting a reading takes that one and nothing else, and tells of which
/// battery it was.
pub proof fn deleting_a_reading_takes_one(d: DbView, id: i64, i: int)
    requires
        d.wf(),
        0 <= i < d.measurements.len(),
        d.measurements[i].id == id,
    ensures
        ({
            let (e, b) = reading_deleted(d, id);
            &&& b == Some(d.measurements[i].battery_id)
            &&& e == (DbView {
                measurements: d.measurements.filter(|m: MeasurementView| m.id != id),
                ..d
            })
        }),
{
    lemma_at(d.measurements, id, 0);
    let k = crate::db::at(d.measurements, id, 0);
    if k < i {
        assert(d.measurements[k].id == d.measurements[i].id);
    }
    lemma_same_filter(
        d.measurements,
        crate::records::reading_is_not(id),
        |m: MeasurementView| m.id != id,
    );
}

// ── Instruments and procedures ──────────────────────────────────────────

/// An instrument has a name and at least one slot; without a name it is refused.
pub proof fn an_instrument_has_name_and_slots(d: DbView, name: Seq<char>, slots: i64, now: Seq<char>)
    requires
        d.wf(),
        d.last_instrument < i64::MAX,
    ensures
        instrument_added(d, name, slots, now) is Ok <==> trimmed(name).len() > 0,
        instrument_added(d, name, slots, now) matches Ok((e, x)) ==> {
            &&& e.instruments == d.instruments.push(x)
            &&& e.batteries == d.batteries
            &&& e.measurements == d.measurements
            &&& e.modes == d.modes
            &&& x.name == trimmed(name)
            &&& x.slots >= 1
            &&& slots >= 1 ==> x.slots == slots
            &&& forall|j: int|
                0 <= j < d.instruments.len() ==> (#[trigger] d.instruments[j]).id < x.id
        },
{
}

/// Changing an instrument changes its name and slots and nothing else.
pub proof fn an_instrument_keeps_its_number(
    d: DbView,
    id: i64,
    name: Seq<char>,
    slots: i64,
    now: Seq<char>,
    i: int,
)
    requires
        d.wf(),
        0 <= i < d.instruments.len(),
        d.instruments[i].id == id,
    ensures
        instrument_updated(d, id, name, slots, now) is Ok <==> trimmed(name).len() > 0,
        instrument_updated(d, id, name, slots, now) matches Ok((e, x)) ==> {
            &&& x == Some(e.instruments[i])
            &&& e.instruments.len() == d.instruments.len()
            &&& forall|j: int|
                0 <= j < d.instruments.len() && j != i ==> #[trigger] e.instruments[j]
                    == d.instruments[j]
            &&& e == (DbView { instruments: e.instruments, ..d })
            &&& e.instruments[i].id == id
            &&& e.instruments[i].name == trimmed(name)
            &&& e.instruments[i].slots >= 1
            &&& slots >= 1 ==> e.instruments[i].slots == slots
            &&& e.instruments[i].created_at == d.instruments[i].created_at
        },
{
    lemma_at(d.instruments, id, 0);
    let k = crate::db::at(d.instruments, id, 0);
    if k < i {
        assert(d.instruments[k].id == d.instruments[i].id);
    }
}

/// An instrument goes with its procedures; of the readings none goes, but they
/// no longer say that they came from it or them.
pub proof fn readings_outlive_their_instrument(d: DbView, id: i64, i: int, j: int)
    requires
        d.wf(),
        0 <= i < d.instruments.len(),
        d.instruments[i].id == id,
        0 <= j < d.measurements.len(),
    ensures
        ({
            let (e, gone) = instrument_deleted(d, id);
            let was = d.measurements[j];
            let is = e.measurements[j];
            let its_mode = exists|k: int|
                0 <= k < d.modes.len() && was.mode_id == Some((#[trigger] d.modes[k]).id)
                    && d.modes[k].instrument_id == id;
            &&& gone
            &&& e.modes == d.modes.filter(|m: ModeView| m.instrument_id != id)
            &&& e.measurements.len() == d.measurements.len()
            &&& is.instrument_id == (if was.instrument_id == Some(id) {
                None
            } else {
                was.instrument_id
            })
            &&& is.mode_id == (if its_mode {
                None
            } else {
                was.mode_id
            })
            &&& is == (MeasurementView {
                instrument_id: is.instrument_id,
                mode_id: is.mode_id,
                ..was
            })
            &&& e.batteries == d.batteries
            &&& e.history == d.history
            &&& e.matches == d.matches
        }),
{
    lemma_at(d.instruments, id, 0);
    lemma_same_filter(
        d.modes,
        crate::records::mode_is_not_of(id),
        |m: ModeView| m.instrument_id != id,
    );
    let was = d.measurements[j];
    if let Some(k) = was.mode_id {
        if crate::records::mode_goes(d.modes, id, k) {
            let n = choose|n: int|
                0 <= n < d.modes.len() && (#[trigger] d.modes[n]).id == k
                    && d.modes[n].instrument_id == id;
            assert(was.mode_id == Some(d.modes[n].id));
        }
    }
}

/// Whether a place is the next behind the procedures of an instrument: one
/// behind the last of them, the first where it has none.
pub open spec fn behind(modes: Seq<ModeView>, instrument: i64, place: int) -> bool {
    &&& forall|j: int|
        0 <= j < modes.len() && (#[trigger] modes[j]).instrument_id == instrument
            ==> modes[j].position < place
    &&& (exists|j: int|
        0 <= j < modes.len() && (#[trigger] modes[j]).instrument_id == instrument
            && modes[j].position + 1 == place) || (place == 0 && forall|j: int|
        0 <= j < modes.len() ==> (#[trigger] modes[j]).instrument_id != instrument)
}

/// A procedure belongs to an instrument that is there, and has a name and a kind
/// that procedures have. It is shown behind the others of its instrument.
pub proof fn a_procedure_is_added_last(
    d: DbView,
    instrument: i64,
    name: Seq<char>,
    kind: Seq<char>,
    details: Seq<char>,
    fields: Option<Seq<(Seq<char>, bool, bool)>>,
    now: Seq<char>,
)
    requires
        d.wf(),
        d.last_mode < i64::MAX,
        forall|j: int| 0 <= j < d.modes.len() ==> (#[trigger] d.modes[j]).position < i64::MAX,
    ensures
        mode_added(d, instrument, name, kind, details, fields, now) is Ok <==> (exists|j: int|
            0 <= j < d.instruments.len() && (#[trigger] d.instruments[j]).id == instrument)
            && trimmed(name).len() > 0 && (kind == "charged"@ || kind == "analysed"@),
        mode_added(d, instrument, name, kind, details, fields, now) matches Ok((e, m)) ==> {
            &&& e.modes == d.modes.push(m)
            &&& m.instrument_id == instrument
            &&& m.name == trimmed(name)
            &&& m.kind == kind
            &&& m.details == trimmed(details)
            &&& behind(d.modes, instrument, m.position as int)
            &&& forall|j: int| 0 <= j < d.modes.len() ==> (#[trigger] d.modes[j]).id < m.id
            &&& e == (DbView { modes: e.modes, last_mode: e.last_mode, ..d })
        },
{
    lemma_at(d.instruments, instrument, 0);
    lemma_positions(d.modes, instrument);
    crate::records::lemma_next_position(d.modes, instrument);
}

proof fn lemma_positions(modes: Seq<ModeView>, instrument: i64)
    ensures
        behind(modes, instrument, crate::records::next_position(modes, instrument)),
    decreases modes.len(),
{
    if modes.len() > 0 {
        let before = modes.drop_last();
        lemma_positions(before, instrument);
        let last = modes.len() - 1;
        assert forall|j: int|
            0 <= j < modes.len() && (#[trigger] modes[j]).instrument_id == instrument implies modes[j].position
            < crate::records::next_position(modes, instrument) by {
            if j < last {
                assert(before[j] == modes[j]);
            }
        }
        assert(modes[last] == modes.last());
        if crate::records::has_modes(before, instrument) {
            let j = choose|j: int|
                0 <= j < before.len() && (#[trigger] before[j]).instrument_id == instrument;
            assert(before[j].instrument_id == instrument);
        } else if modes[last].instrument_id != instrument {
            assert forall|j: int| 0 <= j < modes.len() implies (#[trigger] modes[j]).instrument_id
                != instrument by {
                if j < last {
                    assert(before[j] == modes[j]);
                }
            }
        }
        if exists|j: int|
            0 <= j < before.len() && (#[trigger] before[j]).instrument_id == instrument
                && before[j].position + 1 == crate::records::next_position(before, instrument) {
            let j = choose|j: int|
                0 <= j < before.len() && (#[trigger] before[j]).instrument_id == instrument
                    && before[j].position + 1 == crate::records::next_position(before, instrument);
            assert(modes[j] == before[j]);
        }
    }
}

/// Changing a procedure changes what was given of it, and leaves its number, its
/// instrument and its place.
pub proof fn a_procedure_keeps_its_place(
    d: DbView,
    id: i64,
    name: Seq<char>,
    kind: Seq<char>,
    details: Seq<char>,
    fields: Option<Seq<(Seq<char>, bool, bool)>>,
    now: Seq<char>,
    i: int,
)
    requires
        d.wf(),
        0 <= i < d.modes.len(),
        d.modes[i].id == id,
    ensures
        mode_updated(d, id, name, kind, details, fields, now) is Ok <==> trimmed(name).len() > 0
            && (kind == "charged"@ || kind == "analysed"@),
        mode_updated(d, id, name, kind, details, fields, now) matches Ok((e, x)) ==> {
            &&& x == Some(e.modes[i])
            &&& e.modes.len() == d.modes.len()
            &&& forall|j: int|
                0 <= j < d.modes.len() && j != i ==> #[trigger] e.modes[j] == d.modes[j]
            &&& e == (DbView { modes: e.modes, ..d })
            &&& e.modes[i].id == id
            &&& e.modes[i].instrument_id == d.modes[i].instrument_id
            &&& e.modes[i].position == d.modes[i].position
            &&& e.modes[i].created_at == d.modes[i].created_at
            &&& e.modes[i].name == trimmed(name)
            &&& e.modes[i].kind == kind
            &&& e.modes[i].details == trimmed(details)
        },
{
    lemma_at(d.modes, id, 0);
    let k = crate::db::at(d.modes, id, 0);
    if k < i {
        assert(d.modes[k].id == d.modes[i].id);
    }
}

/// Whether a procedure is shown earlier than another of its instrument: by place,
/// the older one first where they share a place.
pub open spec fn earlier(a: ModeView, b: ModeView) -> bool {
    a.instrument_id == b.instrument_id && (a.position < b.position || (a.position == b.position
        && a.id < b.id))
}

/// A procedure that goes up changes places with the last of those shown earlier,
/// one that goes down with the first of those shown later; where there is none
/// nothing happens, and nothing but their places changes.
pub proof fn a_procedure_goes_up_or_down(
    d: DbView,
    id: i64,
    up: bool,
    now: Seq<char>,
    i: int,
)
    requires
        d.wf(),
        0 <= i < d.modes.len(),
        d.modes[i].id == id,
    ensures
        ({
            let direction = if up {
                "up"@
            } else {
                "down"@
            };
            match mode_moved(d, id, direction, now) {
                Ok((e, true)) => exists|k: int|
                    {
                        let was = d.modes[i];
                        let other = #[trigger] d.modes[k];
                        &&& 0 <= k < d.modes.len()
                        &&& if up {
                            earlier(other, was)
                        } else {
                            earlier(was, other)
                        }
                        &&& forall|j: int|
                            0 <= j < d.modes.len() ==> if up {
                                !(earlier(other, #[trigger] d.modes[j]) && earlier(d.modes[j], was))
                            } else {
                                !(earlier(was, d.modes[j]) && earlier(d.modes[j], other))
                            }
                        &&& e == (DbView { modes: e.modes, ..d })
                        &&& e.modes.len() == d.modes.len()
                        &&& e.modes[i] == (ModeView {
                            position: other.position,
                            updated_at: now,
                            ..was
                        })
                        &&& e.modes[k] == (ModeView {
                            position: was.position,
                            updated_at: now,
                            ..other
                        })
                        &&& forall|j: int|
                            0 <= j < d.modes.len() && j != i && j != k ==> #[trigger] e.modes[j]
                                == d.modes[j]
                    },
                Ok((e, false)) => e == d && forall|j: int|
                    0 <= j < d.modes.len() ==> if up {
                        !earlier(#[trigger] d.modes[j], d.modes[i])
                    } else {
                        !earlier(d.modes[i], d.modes[j])
                    },
                Err(_) => false,
            }
        }),
{
    reveal_strlit("up");
    reveal_strlit("down");
    lemma_at(d.modes, id, 0);
    let k = crate::db::at(d.modes, id, 0);
    if k < i {
        assert(d.modes[k].id == d.modes[i].id);
    }
    assert("up"@ != "down"@) by {
        assert("up"@.len() == 2);
        assert("down"@.len() == 4);
    }
    lemma_nearest(d.modes, d.modes[i], up, d.modes.len() as int);
    let n = crate::records::neighbour(d.modes, d.modes[i], up, d.modes.len() as int);
    if n is Some {
        assert(d.modes[n->0].instrument_id == d.modes[i].instrument_id);
    }
}

proof fn lemma_nearest(modes: Seq<ModeView>, m: ModeView, up: bool, n: int)
    requires
        0 <= n <= modes.len(),
    ensures
        match crate::records::neighbour(modes, m, up, n) {
            Some(k) => {
                &&& 0 <= k < n
                &&& if up {
                    earlier(modes[k], m)
                } else {
                    earlier(m, modes[k])
                }
                &&& forall|j: int|
                    0 <= j < n ==> if up {
                        !(earlier(modes[k], #[trigger] modes[j]) && earlier(modes[j], m))
                    } else {
                        !(earlier(m, modes[j]) && earlier(modes[j], modes[k]))
                    }
            },
            None => forall|j: int|
                0 <= j < n ==> if up {
                    !earlier(#[trigger] modes[j], m)
                } else {
                    !earlier(m, modes[j])
                },
        },
    decreases n,
{
    if n > 0 {
        lemma_nearest(modes, m, up, n - 1);
    }
}

/// Deleting a procedure takes it off the readings, and changes nothing else of
/// them.
pub proof fn readings_outlive_their_procedure(d: DbView, id: i64, i: int, j: int)
    requires
        d.wf(),
        0 <= i < d.modes.len(),
        d.modes[i].id == id,
        0 <= j < d.measurements.len(),
    ensures
        ({
            let (e, gone) = mode_deleted(d, id);
            let was = d.measurements[j];
            &&& gone
            &&& e.modes == d.modes.filter(|m: ModeView| m.id != id)
            &&& e.measurements.len() == d.measurements.len()
            &&& e.measurements[j] == (MeasurementView {
                mode_id: if was.mode_id == Some(id) {
                    None
                } else {
                    was.mode_id
                },
                ..was
            })
            &&& e.batteries == d.batteries
            &&& e.instruments == d.instruments
        }),
{
    lemma_at(d.modes, id, 0);
    lemma_same_filter(d.modes, crate::records::mode_is_not(id), |m: ModeView| m.id != id);
}

// ── Matches ─────────────────────────────────────────────────────────────

/// A match tells what was handed out where, for what and when, under a new
/// number; it is open until its set comes back.
pub proof fn a_match_tells_what_was_handed_out(
    d: DbView,
    location: Seq<char>,
    requested_type: Seq<char>,
    draw: Seq<char>,
    ids: Seq<i64>,
    now: Seq<char>,
)
    requires
        d.wf(),
    ensures
        match_created(d, location, requested_type, draw, ids, now) matches Ok((e, m)) ==> {
            &&& e.matches == d.matches.push(m)
            &&& m.location == trimmed(location)
            &&& m.requested_type == requested_type
            &&& m.draw == draw
            &&& m.battery_ids == ids
            &&& m.created_at == now
            &&& m.returned_at is None
            &&& forall|j: int| 0 <= j < d.matches.len() ==> (#[trigger] d.matches[j]).id < m.id
        },
{
    lemma_handed_out(d, ids, location, now, ids.len() as int);
}

proof fn lemma_handed_out(d: DbView, ids: Seq<i64>, location: Seq<char>, now: Seq<char>, n: int)
    ensures
        crate::sets::handed_out(d, ids, location, now, n) matches Ok(e) ==> e.matches == d.matches
            && e.last_match == d.last_match,
    decreases n,
{
    if n > 0 {
        lemma_handed_out(d, ids, location, now, n - 1);
    }
}

/// Deleting a match, or an entry of the history, takes that one and nothing
/// else.
pub proof fn deleting_a_record_takes_one(d: DbView, id: i64)
    ensures
        match_deleted(d, id).1 ==> match_deleted(d, id).0 == (DbView {
            matches: d.matches.filter(|m: MatchView| m.id != id),
            ..d
        }),
        match_deleted(d, id).1 <==> exists|j: int|
            0 <= j < d.matches.len() && (#[trigger] d.matches[j]).id == id,
        entry_deleted(d, id).1 is Some ==> entry_deleted(d, id).0 == (DbView {
            history: d.history.filter(|m: LocationEntryView| m.id != id),
            ..d
        }),
        entry_deleted(d, id).1 is Some <==> exists|j: int|
            0 <= j < d.history.len() && (#[trigger] d.history[j]).id == id,
{
    lemma_at(d.matches, id, 0);
    lemma_at(d.history, id, 0);
    lemma_same_filter(d.matches, crate::sets::match_is_not(id), |m: MatchView| m.id != id);
    lemma_same_filter(d.history, crate::sets::entry_is_not(id), |m: LocationEntryView| m.id != id);
}

/// The match that was made last comes first in the log, and the others follow in
/// the order they had.
pub proof fn the_latest_match_comes_first(
    d: DbView,
    location: Seq<char>,
    requested_type: Seq<char>,
    draw: Seq<char>,
    ids: Seq<i64>,
    now: Seq<char>,
)
    requires
        d.wf(),
    ensures
        match_created(d, location, requested_type, draw, ids, now) matches Ok((e, m)) ==> log_of(
            e.matches,
        ) == seq![m] + log_of(d.matches),
{
    a_match_tells_what_was_handed_out(d, location, requested_type, draw, ids, now);
    if let Ok((e, m)) = match_created(d, location, requested_type, draw, ids, now) {
        assert(log_of(e.matches) =~= seq![m] + log_of(d.matches));
    }
}

} // verus!
