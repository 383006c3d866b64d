//! What a form that is sent does to the tables.

use vstd::prelude::*;
use crate::actions::{
    battery_deleted, battery_purged, battery_reset, battery_restored, details_edited, form_reading,
    location_chosen, location_entry_deleted, match_removed, measurement_deleted,
    reading_submitted,
};
use crate::adding::{
    all_created, batteries_added, count_typed, first_number, print_submitted, resolved, Reply,
};
use crate::batch::{
    all_cleared, all_moved, batch_moved, is_active, row_plan, rows_plan, settings_cleared, RowPlan,
};
use crate::config::{setting_list, value_of};
use crate::db::{lemma_at, lemma_has, Db, DbView};
use crate::dict::Dict;
use crate::handout::{candidates_of, match_submitted, stored_pool};
use crate::helpers::{field, id_range, id_spec, positive, row_field};
use crate::instruments::{
    flags_typed, instrument_edited, instrument_removed, instrument_submitted, mode_edited,
    mode_removed, mode_submitted, rules_of, slots_typed,
};
use crate::json::json_rules;
use crate::matching::{candidate_of, suggested, Candidate, Draw};
use crate::matching_laws::{available, goes_by, lemma_candidate};
use crate::order::{sorted, Ascending};
use crate::pages::{pool_of, CommandResult};
use crate::reads::{listed, next_number, numbers_among, readings, stored};
use crate::reads_laws::the_numbers_in_use_are_taken;
use crate::rows::{
    Battery, BatteryView, InstrumentRowView, LocationEntryView, MatchView, Measurement,
    MeasurementView, ModeView,
};
use crate::sets::{gathered, in_pool, moved_with_set, sets_returned};
use crate::table_laws::{
    an_edit_changes_what_was_given, clearing_leaves_number_and_type,
    deleting_a_record_takes_one, deleting_marks_or_removes, purging_removes_one,
    restoring_takes_the_mark_off,
};
use crate::text::{parsed_int, trimmed, uppercased};
use crate::writes::moved;

verus! {

// ── Adding ──────────────────────────────────────────────────────────────

/// Whether a battery is as a form describes it.
pub open spec fn as_typed(b: BatteryView, fields: Dict<String>, now: Seq<char>) -> bool {
    &&& b.cell_type == uppercased(trimmed(trimmed(field(fields, "type"@))))
    &&& b.nominal_mah == parsed_int(trimmed(field(fields, "nominal_mah"@)))
    &&& b.brand == trimmed(field(fields, "brand"@))
    &&& b.location == trimmed(field(fields, "location"@))
    &&& b.notes.len() == 0
    &&& b.created_at == now
    &&& b.deleted_at is None
}

/// How many batteries are asked for: as many as were typed, but two hundred at
/// most, and one where it was no number above zero.
pub proof fn a_form_asks_for_so_many(fields: Dict<String>, n: i64)
    ensures
        1 <= count_typed(fields) <= 200,
        positive(field(fields, "count"@)) == Some(n) && n <= 200 ==> count_typed(fields) == n,
        positive(field(fields, "count"@)) == Some(n) && n > 200 ==> count_typed(fields) == 200,
        positive(field(fields, "count"@)) is None ==> count_typed(fields) == 1,
{
}

/// Batteries are added behind those there are, as many as were asked for, with
/// numbers one after another from the first, and each of them as the form
/// describes it. The first number is the one that was typed, or else the next
/// there is.
pub proof fn batteries_are_added_in_a_row(
    before: Db,
    after: Db,
    env: Dict<String>,
    fields: Dict<String>,
    now: Seq<char>,
    r: Reply,
    k: int,
)
    requires
        before@.wf(),
        batteries_added(before, after, env, fields, now, r),
        after@ != before@,
        0 <= k < count_typed(fields),
    ensures
        after@.batteries.len() == before@.batteries.len() + count_typed(fields),
        after@.batteries.take(before@.batteries.len() as int) == before@.batteries,
        ({
            let b = after@.batteries[before@.batteries.len() + k];
            &&& as_typed(b, fields, now)
            &&& match positive(field(fields, "battery_id"@)) {
                Some(first) => b.id == first + k,
                None => next_number(before.batteries@) matches Some(first) ==> b.id == first + k,
            }
        }),
{
    let start = first_number(before, fields);
    let count = count_typed(fields);
    let ids = id_range(start, (start + count - 1) as i64);
    lemma_added(before@, ids, fields, now, ids.len() as int);
    assert(after@.batteries.take(before@.batteries.len() as int) =~= before@.batteries);
    assert(ids[k] == start + k);
}

/// Batteries are added unless the type is missing, a number is taken or there
/// are none left, or there is no room left for their moves.
pub proof fn batteries_are_added_where_they_can_be(
    before: Db,
    after: Db,
    env: Dict<String>,
    fields: Dict<String>,
    now: Seq<char>,
    r: Reply,
)
    requires
        before@.wf(),
        batteries_added(before, after, env, fields, now, r),
        trimmed(field(fields, "type"@)).len() > 0,
        first_number(before, fields) + count_typed(fields) - 1 <= i64::MAX,
        forall|i: int|
            0 <= i < before.batteries@.len() ==> (#[trigger] before.batteries@[i]).id < first_number(
                before,
                fields,
            ) || before.batteries@[i].id >= first_number(before, fields) + count_typed(fields),
        before@.last_history + count_typed(fields) <= i64::MAX,
    ensures
        after@.batteries.len() == before@.batteries.len() + count_typed(fields),
{
    let start = first_number(before, fields);
    let count = count_typed(fields);
    let ids = id_range(start, (start + count - 1) as i64);
    let taken = sorted(Ascending, numbers_among(before.batteries@, ids));
    if taken.len() > 0 {
        the_numbers_in_use_are_taken(before.batteries@, ids, taken[0]);
        assert(taken.contains(taken[0]));
        let i = choose|i: int|
            0 <= i < before.batteries@.len() && (#[trigger] before.batteries@[i]).id == taken[0];
        let j = ids.index_of(taken[0]);
        assert(ids[j] == start + j);
        assert(false);
    }
    assert forall|i: int| 0 <= i < before@.batteries.len() implies (
    #[trigger] before@.batteries[i]).id < start || before@.batteries[i].id >= start + count by {
        assert(before@.batteries[i] == before.batteries@[i]@);
    }
    lemma_all_fit(before@, ids, start as int, count as int, fields, now, ids.len() as int);
    lemma_added(before@, ids, fields, now, ids.len() as int);
}

proof fn lemma_added(d: DbView, ids: Seq<i64>, fields: Dict<String>, now: Seq<char>, n: int)
    requires
        d.wf(),
        0 <= n <= ids.len(),
    ensures
        all_created(
            d,
            ids,
            trimmed(field(fields, "type"@)),
            parsed_int(trimmed(field(fields, "nominal_mah"@))),
            field(fields, "brand"@),
            field(fields, "location"@),
            now,
            n,
        ) matches Ok(e) ==> {
            &&& e.wf()
            &&& e.batteries.len() == d.batteries.len() + n
            &&& forall|i: int|
                0 <= i < d.batteries.len() ==> #[trigger] e.batteries[i] == d.batteries[i]
            &&& forall|i: int|
                d.batteries.len() <= i < e.batteries.len() ==> as_typed(
                    #[trigger] e.batteries[i],
                    fields,
                    now,
                ) && e.batteries[i].id == ids[i - d.batteries.len()]
            &&& e.last_history <= d.last_history + n
        },
    decreases n,
{
    let t = trimmed(field(fields, "type"@));
    let m = parsed_int(trimmed(field(fields, "nominal_mah"@)));
    let b = field(fields, "brand"@);
    let l = field(fields, "location"@);
    if n > 0 {
        lemma_added(d, ids, fields, now, n - 1);
        if let Ok(e) = all_created(d, ids, t, m, b, l, now, n - 1) {
            crate::laws::creating_keeps_the_tables_sound(e, ids[n - 1], t, m, b, l, ""@, now);
            reveal_strlit("");
            assert(trimmed(""@).len() == 0);
        }
    }
}

proof fn lemma_all_fit(
    d: DbView,
    ids: Seq<i64>,
    start: int,
    count: int,
    fields: Dict<String>,
    now: Seq<char>,
    n: int,
)
    requires
        d.wf(),
        0 <= n <= ids.len(),
        ids.len() == count,
        forall|k: int| 0 <= k < ids.len() ==> #[trigger] ids[k] == start + k,
        forall|i: int|
            0 <= i < d.batteries.len() ==> (#[trigger] d.batteries[i]).id < start
                || d.batteries[i].id >= start + count,
        d.last_history + count <= i64::MAX,
    ensures
        all_created(
            d,
            ids,
            trimmed(field(fields, "type"@)),
            parsed_int(trimmed(field(fields, "nominal_mah"@))),
            field(fields, "brand"@),
            field(fields, "location"@),
            now,
            n,
        ) is Ok,
    decreases n,
{
    if n > 0 {
        lemma_all_fit(d, ids, start, count, fields, now, n - 1);
        lemma_added(d, ids, fields, now, n - 1);
        let e = all_created(
            d,
            ids,
            trimmed(field(fields, "type"@)),
            parsed_int(trimmed(field(fields, "nominal_mah"@))),
            field(fields, "brand"@),
            field(fields, "location"@),
            now,
            n - 1,
        )->Ok_0;
        lemma_has(e.batteries, ids[n - 1]);
        assert(ids[n - 1] == start + n - 1);
        assert forall|i: int| 0 <= i < e.batteries.len() implies (#[trigger] e.batteries[i]).id
            != ids[n - 1] by {
            if i < d.batteries.len() {
                assert(e.batteries[i] == d.batteries[i]);
            } else {
                assert(ids[i - d.batteries.len()] == start + i - d.batteries.len());
            }
        }
    }
}

// ── Printing ────────────────────────────────────────────────────────────

/// Of the numbers that labels are asked for, each is that of a battery that is
/// found, or of a deleted one, or of none, and is told as that.
pub proof fn every_label_is_accounted_for(rows: Seq<Battery>, ids: Seq<i64>, n: int)
    requires
        0 <= n <= ids.len(),
    ensures
        ({
            let (found, missing, deleted) = resolved(rows, ids, n);
            &&& found.len() + missing.len() + deleted.len() == n
            &&& forall|i: int|
                0 <= i < found.len() ==> rows.contains(#[trigger] found[i]) && found[i].deleted_at
                    is None && ids.contains(found[i].id)
            &&& forall|i: int|
                0 <= i < missing.len() ==> ids.contains(#[trigger] missing[i]) && !has_number(
                    rows,
                    missing[i],
                )
            &&& forall|i: int|
                0 <= i < deleted.len() ==> ids.contains(#[trigger] deleted[i]) && has_number(
                    rows,
                    deleted[i],
                )
        }),
    decreases n,
{
    if n > 0 {
        every_label_is_accounted_for(rows, ids, n - 1);
        let id = ids[n - 1];
        assert(ids.contains(id));
        lemma_has(rows, id);
        lemma_at(rows, id, 0);
        let k = crate::db::at(rows, id, 0);
        if k < rows.len() {
            assert(rows.contains(rows[k]));
            assert(rows[k].id == id);
        }
    }
}

/// Labels are printed where that was confirmed, of the batteries that are found
/// and of no others.
pub proof fn only_what_is_found_is_printed(
    db: Db,
    env: Dict<String>,
    fields: Dict<String>,
    r: Reply,
    i: int,
)
    requires
        print_submitted(db, env, fields, r),
        r is Print,
        0 <= i < r->Print_0.ids@.len(),
    ensures
        field(fields, "confirm"@) == "yes"@,
        id_spec(field(fields, "spec"@)) matches Ok(ids) && ids.contains(r->Print_0.ids@[i]),
        exists|k: int|
            0 <= k < db.batteries@.len() && (#[trigger] db.batteries@[k]).id == r->Print_0.ids@[i]
                && db.batteries@[k].deleted_at is None,
{
    let ids = id_spec(field(fields, "spec"@))->Ok_0;
    every_label_is_accounted_for(db.batteries@, ids, ids.len() as int);
    let found = resolved(db.batteries@, ids, ids.len() as int).0;
    assert(r->Print_0.ids@[i] == found[i].id);
    assert(db.batteries@.contains(found[i]));
    let k = db.batteries@.index_of(found[i]);
    assert(db.batteries@[k].id == found[i].id);
}

/// Whether a battery has a number.
pub open spec fn has_number(rows: Seq<Battery>, id: i64) -> bool {
    exists|i: int| 0 <= i < rows.len() && (#[trigger] rows[i]).id == id
}

// ── Handing out ─────────────────────────────────────────────────────────

/// What can be handed out are the batteries in use that are in the pool and have
/// a capacity, each as its own readings say, with the resistance that is set where
/// it has none.
pub proof fn candidates_come_from_the_pool(db: Db, env: Dict<String>)
    ensures
        ({
            let cells = candidates_of(db, env);
            let place = value_of(db@.settings, env, "pool_location"@).text();
            let usual = value_of(db@.settings, env, "default_ir_mohm"@).number();
            &&& cells.map_values(|c: Candidate| c.battery) == listed(
                db.batteries@,
                ""@,
                ""@,
                ""@,
                "active"@,
                "id"@,
            ).filter(|b: Battery| available(b, readings(db.measurements@, b.id), place))
            &&& forall|i: int|
                0 <= i < cells.len() ==> goes_by(
                    #[trigger] cells[i],
                    readings(db.measurements@, cells[i].battery.id),
                    usual,
                )
        }),
{
    lemma_stored(
        listed(db.batteries@, ""@, ""@, ""@, "active"@, "id"@),
        db.measurements@,
        value_of(db@.settings, env, "pool_location"@).text(),
        value_of(db@.settings, env, "default_ir_mohm"@).number(),
    );
}

proof fn lemma_stored(batteries: Seq<Battery>, ms: Seq<Measurement>, place: Seq<char>, usual: i64)
    ensures
        stored_pool(batteries, ms, place, usual).map_values(|c: Candidate| c.battery)
            == batteries.filter(|b: Battery| available(b, readings(ms, b.id), place)),
        forall|i: int|
            0 <= i < stored_pool(batteries, ms, place, usual).len() ==> goes_by(
                #[trigger] stored_pool(batteries, ms, place, usual)[i],
                readings(ms, stored_pool(batteries, ms, place, usual)[i].battery.id),
                usual,
            ),
    decreases batteries.len(),
{
    reveal(Seq::filter);
    let cells = stored_pool(batteries, ms, place, usual);
    let p = |b: Battery| available(b, readings(ms, b.id), place);
    let g = |c: Candidate| c.battery;
    if batteries.len() > 0 {
        let d = batteries.drop_last();
        lemma_stored(d, ms, place, usual);
        let before = stored_pool(d, ms, place, usual);
        let b = batteries.last();
        lemma_candidate(b, readings(ms, b.id), place, usual);
        if let Some(c) = candidate_of(b, readings(ms, b.id), place, usual) {
            assert(cells.map_values(g) =~= before.map_values(g).push(b));
            assert forall|i: int| 0 <= i < cells.len() implies goes_by(
                #[trigger] cells[i],
                readings(ms, cells[i].battery.id),
                usual,
            ) by {
                if i < before.len() {
                    assert(cells[i] == before[i]);
                }
            }
        }
        assert(batteries.filter(p) == if p(b) {
            d.filter(p).push(b)
        } else {
            d.filter(p)
        });
    } else {
        assert(cells.map_values(g) =~= batteries.filter(p));
    }
}

/// A set is handed out only where that was confirmed, and it is the suggested
/// one: so many batteries of the type for the draw, to the place that was typed.
pub proof fn a_set_is_handed_out_when_confirmed(
    before: Db,
    after: Db,
    env: Dict<String>,
    fields: Dict<String>,
    now: Seq<char>,
    r: CommandResult,
)
    requires
        before@.wf(),
        match_submitted(before, after, env, fields, now, r),
        after@ != before@,
    ensures
        field(fields, "confirm"@) == "yes"@,
        after@.matches.len() == before@.matches.len() + 1,
        ({
            let m = after@.matches.last();
            let draw = if field(fields, "draw"@) == "high"@ {
                Draw::High
            } else {
                Draw::Low
            };
            &&& m.location == trimmed(trimmed(field(fields, "location"@)))
            &&& m.requested_type == uppercased(trimmed(field(fields, "type"@)))
            &&& m.draw == draw.text()
            &&& m.returned_at is None
            &&& positive(field(fields, "count"@)) matches Some(n) && (n <= u32::MAX ==> (suggested(
                candidates_of(before, env),
                m.requested_type,
                n as int,
                draw,
            ) matches Ok(s) && s.battery_ids == m.battery_ids))
        }),
{
    reveal_strlit("low");
    reveal_strlit("high");
    assert("low"@.len() == 3 && "high"@.len() == 4);
    let request = crate::handout::request_typed(fields);
    let n = positive(request.match_count)->0;
    let s = suggested(
        candidates_of(before, env),
        request.match_type,
        crate::handout::machine_count(n),
        crate::handout::draw_typed(fields),
    )->Ok_0;
    crate::table_laws::a_match_tells_what_was_handed_out(
        before@,
        request.match_location,
        request.match_type,
        crate::handout::draw_typed(fields).text(),
        s.battery_ids,
        now,
    );
}

// ── Readings ────────────────────────────────────────────────────────────

/// What a value's field says: nothing where it is blank, else the number.
pub open spec fn says(raw: Seq<char>, value: Option<i64>) -> bool {
    match value {
        Some(n) => n >= 0 && parsed_int(trimmed(raw)) == Some(n),
        None => trimmed(raw).len() == 0,
    }
}

/// The reading that a form makes says what stands in the form's fields, each
/// value what stands in its own.
pub proof fn a_form_makes_the_reading_it_shows(d: DbView, fields: Dict<String>)
    ensures
        form_reading(d, fields) matches Ok(r) ==> {
            &&& r.kind == field(fields, "kind"@)
            &&& r.measured_at == field(fields, "measured_at"@)
            &&& says(field(fields, "capacity_mah"@), r.capacity_mah)
            &&& says(field(fields, "ir_mohm"@), r.ir_mohm)
            &&& says(field(fields, "discharge_ma"@), r.discharge_ma)
            &&& says(field(fields, "charge_ma"@), r.charge_ma)
            &&& r.instrument_id == parsed_int(trimmed(field(fields, "instrument_id"@)))
            &&& r.mode_id == parsed_int(trimmed(field(fields, "mode_id"@)))
            &&& r.notes == field(fields, "notes"@)
        },
{
}

/// A row of a batch is skipped where it names no battery. Else it makes a reading
/// of that battery that says what stands in the row, with the kind, the day and
/// the instrument of the whole form.
pub proof fn a_row_makes_the_reading_it_shows(d: DbView, fields: Dict<String>, i: int)
    ensures
        row_plan(d, fields, i) is Skip <==> positive(row_field(fields, "battery_id"@, i)) is None,
        row_plan(d, fields, i) matches RowPlan::Missing(id) ==> positive(
            row_field(fields, "battery_id"@, i),
        ) == Some(id) && forall|j: int|
            0 <= j < d.batteries.len() ==> (#[trigger] d.batteries[j]).id != id,
        row_plan(d, fields, i) matches RowPlan::Save(id, r) ==> {
            &&& positive(row_field(fields, "battery_id"@, i)) == Some(id)
            &&& r.kind == field(fields, "kind"@)
            &&& r.measured_at == field(fields, "measured_at"@)
            &&& says(row_field(fields, "capacity_mah"@, i), r.capacity_mah)
            &&& says(row_field(fields, "ir_mohm"@, i), r.ir_mohm)
            &&& says(row_field(fields, "discharge_ma"@, i), r.discharge_ma)
            &&& says(row_field(fields, "charge_ma"@, i), r.charge_ma)
            &&& r.instrument_id == parsed_int(trimmed(field(fields, "instrument_id"@)))
            &&& r.mode_id == parsed_int(trimmed(field(fields, "mode_id"@)))
            &&& r.notes == row_field(fields, "notes"@, i)
        },
{
    if let Some(id) = positive(row_field(fields, "battery_id"@, i)) {
        lemma_has(d.batteries, id);
    }
}

/// A batch is refused where a row makes no reading. Else every row that names a
/// battery there is makes a reading to save, and every one that names none there
/// is told.
pub proof fn every_row_is_saved_or_told(d: DbView, fields: Dict<String>, n: int, i: int)
    requires
        1 <= i <= n,
    ensures
        match rows_plan(d, fields, n) {
            Ok((found, missing)) => match row_plan(d, fields, i) {
                RowPlan::Skip => true,
                RowPlan::Missing(id) => missing.contains(id),
                RowPlan::Save(id, reading) => found.contains((id, reading)),
                RowPlan::Fault(_) => false,
            },
            Err(e) => exists|j: int| 1 <= j <= n && #[trigger] row_plan(d, fields, j) == RowPlan::Fault(e),
        },
    decreases n,
{
    if i < n {
        every_row_is_saved_or_told(d, fields, n - 1, i);
        if let Ok((found, missing)) = rows_plan(d, fields, n - 1) {
            if let Ok((all, gone)) = rows_plan(d, fields, n) {
                if let RowPlan::Missing(id) = row_plan(d, fields, i) {
                    let k = missing.index_of(id);
                    assert(gone[k] == id);
                }
                if let RowPlan::Save(id, reading) = row_plan(d, fields, i) {
                    let k = found.index_of((id, reading));
                    assert(all[k] == (id, reading));
                }
            } else {
                assert(row_plan(d, fields, n) is Fault);
            }
        } else {
            let e = rows_plan(d, fields, n - 1)->Err_0;
            let j = choose|j: int|
                1 <= j <= n - 1 && #[trigger] row_plan(d, fields, j) == RowPlan::Fault(e);
            assert(row_plan(d, fields, j) == RowPlan::Fault(e));
        }
    } else {
        if n > 1 {
            every_row_is_saved_or_told(d, fields, n - 1, 1);
        }
        if let Ok((found, missing)) = rows_plan(d, fields, n - 1) {
            if let Ok((all, gone)) = rows_plan(d, fields, n) {
                if let RowPlan::Missing(id) = row_plan(d, fields, n) {
                    assert(gone[gone.len() - 1] == id);
                }
                if let RowPlan::Save(id, reading) = row_plan(d, fields, n) {
                    assert(all[all.len() - 1] == (id, reading));
                }
            } else {
                assert(row_plan(d, fields, n) is Fault);
            }
        } else {
            let e = rows_plan(d, fields, n - 1)->Err_0;
            let j = choose|j: int|
                1 <= j <= n - 1 && #[trigger] row_plan(d, fields, j) == RowPlan::Fault(e);
            assert(row_plan(d, fields, j) == RowPlan::Fault(e));
        }
    }
}

/// No reading is saved and no battery is told that no row names.
pub proof fn nothing_is_saved_that_no_row_names(d: DbView, fields: Dict<String>, n: int, k: int)
    requires
        n >= 0,
        rows_plan(d, fields, n) is Ok,
    ensures
        0 <= k < rows_plan(d, fields, n)->Ok_0.0.len() ==> exists|i: int|
            1 <= i <= n && #[trigger] row_plan(d, fields, i) == RowPlan::Save(
                rows_plan(d, fields, n)->Ok_0.0[k].0,
                rows_plan(d, fields, n)->Ok_0.0[k].1,
            ),
        0 <= k < rows_plan(d, fields, n)->Ok_0.1.len() ==> exists|i: int|
            1 <= i <= n && #[trigger] row_plan(d, fields, i) == RowPlan::Missing(
                rows_plan(d, fields, n)->Ok_0.1[k],
            ),
    decreases n,
{
    if n > 0 {
        nothing_is_saved_that_no_row_names(d, fields, n - 1, k);
        let (found, missing) = rows_plan(d, fields, n - 1)->Ok_0;
        let (all, gone) = rows_plan(d, fields, n)->Ok_0;
        let here = row_plan(d, fields, n);
        if 0 <= k < found.len() {
            assert(all[k] == found[k]);
        }
        if 0 <= k < missing.len() {
            assert(gone[k] == missing[k]);
        }
        assert(here is Save || here is Missing || here is Skip);
    }
}

/// A reading that a form makes is saved for the battery, where that is there; a
/// form that makes none changes nothing.
pub proof fn the_reading_in_a_form_is_saved(
    before: Db,
    after: Db,
    env: Dict<String>,
    id: Seq<char>,
    fields: Dict<String>,
    now: Seq<char>,
    today: Seq<char>,
    r: CommandResult,
    n: i64,
    i: int,
)
    requires
        before@.wf(),
        before@.last_measurement < i64::MAX,
        reading_submitted(before, after, env, id, fields, now, today, r),
        parsed_int(id) == Some(n),
        0 <= i < before@.batteries.len(),
        before@.batteries[i].id == n,
        field(fields, "kind"@) == "charged"@ || field(fields, "kind"@) == "analysed"@ || field(
            fields,
            "kind"@,
        ) == "bought"@,
    ensures
        form_reading(before@, fields) is Err ==> after == before,
        form_reading(before@, fields) is Ok && field(fields, "kind"@) != "bought"@ ==> {
            let m = after@.measurements.last();
            &&& after@.measurements.len() == before@.measurements.len() + 1
            &&& after@.measurements.drop_last() == before@.measurements
            &&& m.battery_id == n
            &&& m.kind == field(fields, "kind"@)
            &&& m.measured_at == field(fields, "measured_at"@)
            &&& says(field(fields, "capacity_mah"@), m.capacity_mah)
            &&& says(field(fields, "ir_mohm"@), m.ir_mohm)
            &&& says(field(fields, "discharge_ma"@), m.discharge_ma)
            &&& says(field(fields, "charge_ma"@), m.charge_ma)
            &&& m.notes == trimmed(field(fields, "notes"@))
        },
{
    a_form_makes_the_reading_it_shows(before@, fields);
    if let Ok(reading) = form_reading(before@, fields) {
        crate::table_laws::a_reading_is_added(before@, n, reading, now, i);
        crate::helpers_laws::a_reading_says_how_it_was_taken(
            before@,
            reading.kind,
            reading.capacity_mah,
            reading.ir_mohm,
            reading.instrument_id,
            reading.mode_id,
            reading.discharge_ma,
            reading.charge_ma,
        );
    }
}

// ── One battery ─────────────────────────────────────────────────────────

/// The form for a battery's details changes its type, capacity, brand and notes
/// to what was typed.
pub proof fn details_are_as_typed(
    before: Db,
    after: Db,
    id: Seq<char>,
    fields: Dict<String>,
    now: Seq<char>,
    r: CommandResult,
    n: i64,
    i: int,
)
    requires
        before@.wf(),
        details_edited(before, after, id, fields, now, r),
        parsed_int(id) == Some(n),
        0 <= i < before@.batteries.len(),
        before@.batteries[i].id == n,
    ensures
        after@.batteries[i].id == n,
        after@.batteries[i].cell_type == uppercased(trimmed(field(fields, "type"@))),
        after@.batteries[i].nominal_mah == parsed_int(trimmed(field(fields, "nominal_mah"@))),
        after@.batteries[i].brand == field(fields, "brand"@),
        after@.batteries[i].notes == field(fields, "notes"@),
        after@.batteries[i].location == before@.batteries[i].location,
{
    an_edit_changes_what_was_given(
        before@,
        n,
        Some(field(fields, "type"@)),
        Some(parsed_int(trimmed(field(fields, "nominal_mah"@)))),
        Some(field(fields, "brand"@)),
        Some(field(fields, "notes"@)),
        now,
        i,
    );
}

/// A battery that was deleted is not among those in use any more.
pub proof fn a_deleted_battery_is_out_of_use(
    before: Db,
    after: Db,
    id: Seq<char>,
    fields: Dict<String>,
    now: Seq<char>,
    r: CommandResult,
    n: i64,
    b: BatteryView,
)
    requires
        before@.wf(),
        battery_deleted(before, after, id, fields, now, r),
        parsed_int(id) == Some(n),
        after@.batteries.contains(b),
    ensures
        b.id == n ==> b.deleted_at is Some,
        b.id != n ==> before@.batteries.contains(b),
{
    let k = after@.batteries.index_of(b);
    assert(k < before@.batteries.len() ==> before@.batteries.contains(before@.batteries[k]));
    lemma_at(before@.batteries, n, 0);
    let i = crate::db::at(before@.batteries, n, 0);
    if i < before@.batteries.len() {
        deleting_marks_or_removes(before@, n, now, i);
        let p = |b: BatteryView| b.id != n;
        if after@.batteries == before@.batteries.filter(p) {
            lemma_left(before@.batteries, p, b);
        }
        if k < before@.batteries.len() && k != i {
            assert(before@.batteries[k].id != before@.batteries[i].id);
        }
    }
}

/// A battery that was restored is in use again.
pub proof fn a_restored_battery_is_in_use(
    before: Db,
    after: Db,
    id: Seq<char>,
    fields: Dict<String>,
    now: Seq<char>,
    r: CommandResult,
    n: i64,
    i: int,
)
    requires
        before@.wf(),
        battery_restored(before, after, id, fields, now, r),
        parsed_int(id) == Some(n),
        0 <= i < before@.batteries.len(),
        before@.batteries[i].id == n,
    ensures
        after@.batteries[i].id == n,
        after@.batteries[i].deleted_at is None,
{
    restoring_takes_the_mark_off(before@, n, now, i);
}

/// A battery that was removed for good had been deleted, had no readings, and is
/// gone; else nothing has changed.
pub proof fn a_purged_battery_is_gone(
    before: Db,
    after: Db,
    id: Seq<char>,
    fields: Dict<String>,
    r: CommandResult,
    n: i64,
    i: int,
)
    requires
        before@.wf(),
        battery_purged(before, after, id, fields, r),
        parsed_int(id) == Some(n),
        0 <= i < before@.batteries.len(),
        before@.batteries[i].id == n,
    ensures
        ({
            let may = before@.batteries[i].deleted_at is Some && forall|j: int|
                0 <= j < before@.measurements.len() ==> (
                #[trigger] before@.measurements[j]).battery_id != n;
            after@.batteries == (if may {
                before@.batteries.filter(|b: BatteryView| b.id != n)
            } else {
                before@.batteries
            })
        }),
{
    purging_removes_one(before@, n, i);
}

/// A record that was cleared keeps its number and type alone.
pub proof fn a_cleared_battery_is_as_new(
    before: Db,
    after: Db,
    id: Seq<char>,
    fields: Dict<String>,
    now: Seq<char>,
    r: CommandResult,
    n: i64,
    i: int,
)
    requires
        before@.wf(),
        before@.last_history < i64::MAX,
        battery_reset(before, after, id, fields, now, r),
        parsed_int(id) == Some(n),
        0 <= i < before@.batteries.len(),
        before@.batteries[i].id == n,
    ensures
        after@.batteries[i].id == n,
        after@.batteries[i].cell_type == before@.batteries[i].cell_type,
        after@.batteries[i].brand.len() == 0,
        after@.batteries[i].location.len() == 0,
        after@.batteries[i].notes.len() == 0,
        after@.batteries[i].nominal_mah is None,
        after@.measurements == before@.measurements.filter(|m: MeasurementView| m.battery_id != n),
{
    clearing_leaves_number_and_type(before@, n, now, i);
}

/// A reading, a move or a match that was deleted is gone, and every other stays.
pub proof fn a_deleted_record_is_gone(
    before: Db,
    after: Db,
    id: Seq<char>,
    r: CommandResult,
    n: i64,
)
    requires
        before@.wf(),
        parsed_int(id) == Some(n),
    ensures
        measurement_deleted(before, after, id, r) ==> after@.measurements
            == before@.measurements.filter(|m: MeasurementView| m.id != n),
        location_entry_deleted(before, after, id, r) ==> after@.history == before@.history.filter(
            |m: LocationEntryView| m.id != n,
        ),
        match_removed(before, after, id, r) ==> after@.matches == before@.matches.filter(
            |m: MatchView| m.id != n,
        ),
{
    deleting_a_record_takes_one(before@, n);
    lemma_at(before@.measurements, n, 0);
    lemma_at(before@.history, n, 0);
    lemma_at(before@.matches, n, 0);
    let i = crate::db::at(before@.measurements, n, 0);
    if i < before@.measurements.len() {
        crate::table_laws::deleting_a_reading_takes_one(before@, n, i);
    } else {
        lemma_all_stay(before@.measurements, |m: MeasurementView| m.id != n);
    }
    lemma_has(before@.history, n);
    if !crate::db::present(before@.history, n) {
        lemma_all_stay(before@.history, |m: LocationEntryView| m.id != n);
    }
    lemma_has(before@.matches, n);
    if !crate::db::present(before@.matches, n) {
        lemma_all_stay(before@.matches, |m: MatchView| m.id != n);
    }
}

proof fn lemma_left<T>(s: Seq<T>, p: spec_fn(T) -> bool, x: T)
    requires
        s.filter(p).contains(x),
    ensures
        p(x),
        s.contains(x),
    decreases s.len(),
{
    reveal(Seq::filter);
    if s.len() > 0 {
        let d = s.drop_last();
        let k = s.filter(p).index_of(x);
        if k < d.filter(p).len() {
            assert(d.filter(p)[k] == x);
            lemma_left(d, p, x);
            let i = d.index_of(x);
            assert(s[i] == x);
        } else {
            assert(s[s.len() - 1] == x);
        }
    }
}

proof fn lemma_all_stay<T>(s: Seq<T>, p: spec_fn(T) -> bool)
    requires
        forall|i: int| 0 <= i < s.len() ==> p(#[trigger] s[i]),
    ensures
        s.filter(p) == s,
    decreases s.len(),
{
    reveal(Seq::filter);
    if s.len() > 0 {
        let d = s.drop_last();
        assert forall|i: int| 0 <= i < d.len() implies p(#[trigger] d[i]) by {
            assert(d[i] == s[i]);
        }
        lemma_all_stay(d, p);
        assert(p(s[s.len() - 1]));
        assert(s =~= d.push(s.last()));
    }
}

// ── Places ──────────────────────────────────────────────────────────────

/// Gathering a set leaves those that are in the pool where they are.
proof fn lemma_gathered_stay(d: DbView, members: Seq<i64>, pool: Seq<char>, now: Seq<char>, n: int)
    ensures
        gathered(d, members, pool, now, n) matches Ok((e, _)) ==> {
            &&& e.batteries.len() == d.batteries.len()
            &&& forall|i: int|
                0 <= i < d.batteries.len() && in_pool(#[trigger] d.batteries[i], pool)
                    ==> e.batteries[i].location == d.batteries[i].location
        },
    decreases n,
{
    if n > 0 {
        lemma_gathered_stay(d, members, pool, now, n - 1);
        if let Ok((e, _)) = gathered(d, members, pool, now, n - 1) {
            lemma_at(e.batteries, members[n - 1], 0);
            assert forall|i: int|
                0 <= i < d.batteries.len() && in_pool(#[trigger] d.batteries[i], pool) implies in_pool(
                e.batteries[i],
                pool,
            ) by {}
        }
    }
}

proof fn lemma_returned_stay(d: DbView, id: i64, pool: Seq<char>, now: Seq<char>, n: int)
    ensures
        sets_returned(d, id, pool, now, n) matches Ok((e, _)) ==> {
            &&& e.batteries.len() == d.batteries.len()
            &&& forall|i: int|
                0 <= i < d.batteries.len() && in_pool(#[trigger] d.batteries[i], pool)
                    ==> e.batteries[i].location == d.batteries[i].location
        },
    decreases n,
{
    if n > 0 {
        lemma_returned_stay(d, id, pool, now, n - 1);
        if let Ok((e, _)) = sets_returned(d, id, pool, now, n - 1) {
            let m = e.matches[n - 1];
            lemma_gathered_stay(e, m.battery_ids, pool, now, m.battery_ids.len() as int);
            assert forall|i: int|
                0 <= i < d.batteries.len() && in_pool(#[trigger] d.batteries[i], pool) implies in_pool(
                e.batteries[i],
                pool,
            ) by {}
        }
    }
}

/// A battery that is moved is at its new place afterwards, and so is every one
/// that was there before.
pub proof fn a_moved_battery_is_at_its_place(
    d: DbView,
    id: i64,
    location: Seq<char>,
    pool: Seq<char>,
    now: Seq<char>,
    i: int,
)
    requires
        d.wf(),
        0 <= i < d.batteries.len(),
        d.batteries[i].id == id || d.batteries[i].location == trimmed(location),
    ensures
        moved_with_set(d, id, location, pool, now) matches Ok((e, _)) ==> e.batteries[i].location
            == trimmed(location) && e.batteries.len() == d.batteries.len(),
{
    lemma_at(d.batteries, id, 0);
    let k = crate::db::at(d.batteries, id, 0);
    if d.batteries[i].id == id && k < i {
        assert(d.batteries[k].id == d.batteries[i].id);
    }
    if let Ok((e, b)) = moved(d, id, location, now) {
        lemma_returned_stay(e, id, pool, now, e.matches.len() as int);
        assert(e.batteries[i].location == trimmed(location));
        if let Some(x) = b {
            assert(x.location == trimmed(location));
            assert(in_pool(e.batteries[i], pool) == in_pool(x, pool));
        }
    }
}

/// Whether a battery is there and outside the pool.
pub open spec fn outside(d: DbView, pool: Seq<char>, id: i64) -> bool {
    exists|i: int|
        0 <= i < d.batteries.len() && (#[trigger] d.batteries[i]).id == id && !in_pool(
            d.batteries[i],
            pool,
        )
}

/// Of a set that is gathered those are named that were outside the pool.
pub proof fn those_that_are_moved_are_named(
    d: DbView,
    members: Seq<i64>,
    pool: Seq<char>,
    now: Seq<char>,
    n: int,
    x: i64,
)
    requires
        d.wf(),
        trimmed(pool) == pool,
        0 <= n <= members.len(),
    ensures
        gathered(d, members, pool, now, n) matches Ok((e, ids)) ==> {
            &&& ids.contains(x) <==> is_among(members, n, x) && outside(d, pool, x)
            &&& e.batteries.len() == d.batteries.len()
            &&& forall|i: int|
                0 <= i < d.batteries.len() && (#[trigger] d.batteries[i]).id == x ==> {
                    &&& e.batteries[i].id == x
                    &&& is_among(members, n, x) && outside(d, pool, x) ==> e.batteries[i].location
                        == pool
                    &&& !is_among(members, n, x) || !outside(d, pool, x) ==> e.batteries[i]
                        == d.batteries[i]
                }
            &&& e.wf()
            &&& forall|i: int|
                0 <= i < d.batteries.len() ==> (#[trigger] e.batteries[i]).id == d.batteries[i].id
        },
    decreases n,
{
    if n > 0 {
        let y = members[n - 1];
        those_that_are_moved_are_named(d, members, pool, now, n - 1, x);
        those_that_are_moved_are_named(d, members, pool, now, n - 1, y);
        lemma_same_fold(pool);
        if let Ok((e, ids)) = gathered(d, members, pool, now, n - 1) {
            lemma_at(e.batteries, y, 0);
            let k = crate::db::at(e.batteries, y, 0);
            crate::laws::moving_keeps_the_tables_sound(e, y, pool, now);
            assert forall|i: int| 0 <= i < d.batteries.len() && (#[trigger] d.batteries[i]).id
                == y implies i == k by {
                assert(e.batteries[i].id == y);
                if k < i {
                    assert(e.batteries[k].id != e.batteries[i].id);
                }
            }
            assert(k < e.batteries.len() ==> d.batteries[k].id == e.batteries[k].id);
            if let Ok((f, all)) = gathered(d, members, pool, now, n) {
                if ids.contains(x) {
                    let j = ids.index_of(x);
                    assert(all[j] == x);
                }
                if is_among(members, n - 1, x) {
                    let j = choose|j: int| 0 <= j < n - 1 && #[trigger] members[j] == x;
                    assert(members[j] == x);
                }
                if k < e.batteries.len() {
                    assert(d.batteries[k].id == y);
                    assert(!in_pool(e.batteries[k], pool) <==> outside(d, pool, y) && !is_among(
                        members,
                        n - 1,
                        y,
                    ));
                    if !in_pool(e.batteries[k], pool) {
                        assert(all[all.len() - 1] == y);
                    }
                }
                if all.contains(x) && !ids.contains(x) {
                    let j = all.index_of(x);
                    if j < ids.len() {
                        assert(ids[j] == x);
                    }
                    assert(x == y);
                }
                if is_among(members, n, x) && !is_among(members, n - 1, x) {
                    let j = choose|j: int| 0 <= j < n && #[trigger] members[j] == x;
                    assert(j == n - 1);
                }
            }
        }
    }
}

proof fn lemma_same_fold(pool: Seq<char>)
    ensures
        crate::text::same_ignoring_case(pool, pool),
{
}

/// The form for a battery's place puts it where was typed, or changes nothing.
pub proof fn a_battery_goes_where_was_typed(
    before: Db,
    after: Db,
    env: Dict<String>,
    id: Seq<char>,
    fields: Dict<String>,
    now: Seq<char>,
    r: CommandResult,
    n: i64,
    i: int,
)
    requires
        before@.wf(),
        location_chosen(before, after, env, id, fields, now, r),
        parsed_int(id) == Some(n),
        0 <= i < before@.batteries.len(),
        before@.batteries[i].id == n,
    ensures
        after@.batteries[i].location == trimmed(field(fields, "location"@)) || after == before,
{
    a_moved_battery_is_at_its_place(
        before@,
        n,
        field(fields, "location"@),
        crate::pages::pool_of(before, env),
        now,
        i,
    );
}

/// Whether a battery is among the first of some.
pub open spec fn is_among(ids: Seq<i64>, n: int, id: i64) -> bool {
    exists|j: int| 0 <= j < n && #[trigger] ids[j] == id
}

/// Of several batteries that are moved at once, each that is in use is at the
/// place afterwards, where no move has failed.
pub proof fn a_batch_is_at_its_place(
    d: DbView,
    ids: Seq<i64>,
    location: Seq<char>,
    pool: Seq<char>,
    now: Seq<char>,
    n: int,
    i: int,
)
    requires
        d.wf(),
        trimmed(pool) == pool,
        0 <= n <= ids.len(),
        0 <= i < d.batteries.len(),
        d.batteries[i].deleted_at is None,
        is_among(ids, n, d.batteries[i].id),
        all_moved(d, ids, location, pool, now, n).faults.len() == 0,
    ensures
        all_moved(d, ids, location, pool, now, n).tables.batteries[i].location == trimmed(location),
    decreases n,
{
    let m = all_moved(d, ids, location, pool, now, n - 1);
    let id = d.batteries[i].id;
    lemma_batch_kept(d, ids, location, pool, now, n - 1);
    let e = m.tables;
    lemma_at(e.batteries, ids[n - 1], 0);
    let k = crate::db::at(e.batteries, ids[n - 1], 0);
    if is_among(ids, n - 1, id) {
        a_batch_is_at_its_place(d, ids, location, pool, now, n - 1, i);
        if is_active(e, ids[n - 1]) {
            a_moved_battery_is_at_its_place(e, ids[n - 1], location, pool, now, i);
        }
    } else {
        assert(ids[n - 1] == id);
        assert(e.batteries[i].id == id);
        if k < i {
            assert(e.batteries[k].id == e.batteries[i].id);
        }
        assert(k == i);
        a_moved_battery_is_at_its_place(e, id, location, pool, now, i);
    }
}

proof fn lemma_batch_kept(
    d: DbView,
    ids: Seq<i64>,
    location: Seq<char>,
    pool: Seq<char>,
    now: Seq<char>,
    n: int,
)
    requires
        d.wf(),
        trimmed(pool) == pool,
    ensures
        all_moved(d, ids, location, pool, now, n).tables.wf(),
        crate::laws::only_moved(d, all_moved(d, ids, location, pool, now, n).tables),
    decreases n,
{
    if n > 0 {
        lemma_batch_kept(d, ids, location, pool, now, n - 1);
        let e = all_moved(d, ids, location, pool, now, n - 1).tables;
        crate::laws::moving_a_set_keeps_the_tables_sound(e, ids[n - 1], location, pool, now);
        crate::laws::moving_changes_only_locations(e, ids[n - 1], location, pool, now);
        let f = all_moved(d, ids, location, pool, now, n).tables;
        assert forall|i: int| 0 <= i < d.batteries.len() implies (#[trigger] f.batteries[i]) == (
        BatteryView {
            location: f.batteries[i].location,
            updated_at: f.batteries[i].updated_at,
            ..d.batteries[i]
        }) by {
            assert(e.batteries[i] == (BatteryView {
                location: e.batteries[i].location,
                updated_at: e.batteries[i].updated_at,
                ..d.batteries[i]
            }));
        }
    }
}

/// The form for several places puts each battery that is named and in use where
/// was typed, where no move has failed.
pub proof fn several_go_where_was_typed(
    before: Db,
    after: Db,
    env: Dict<String>,
    fields: Dict<String>,
    now: Seq<char>,
    r: CommandResult,
    ids: Seq<i64>,
    i: int,
)
    requires
        before@.wf(),
        batch_moved(before, after, env, fields, now, r),
        id_spec(field(fields, "spec"@)) == Ok::<Seq<i64>, Seq<char>>(ids),
        0 <= i < before@.batteries.len(),
        before@.batteries[i].deleted_at is None,
        ids.contains(before@.batteries[i].id),
        all_moved(
            before@,
            ids,
            field(fields, "location"@),
            pool_of(before, env),
            now,
            ids.len() as int,
        ).faults.len() == 0,
    ensures
        after@.batteries[i].location == trimmed(field(fields, "location"@)),
{
    let id = before@.batteries[i].id;
    crate::config::a_setting_is_trimmed(before@.settings, env, "pool_location"@);
    let j = ids.index_of(id);
    assert(ids[j] == id);
    a_batch_is_at_its_place(
        before@,
        ids,
        field(fields, "location"@),
        pool_of(before, env),
        now,
        ids.len() as int,
        i,
    );
}

// ── Instruments ─────────────────────────────────────────────────────────

/// An instrument that is added or changed has the name and the slots that were
/// typed, as long as a name was.
pub proof fn an_instrument_is_as_typed(
    before: Db,
    after: Db,
    id: Seq<char>,
    fields: Dict<String>,
    now: Seq<char>,
    r: CommandResult,
    n: i64,
    i: int,
)
    requires
        before@.wf(),
        before@.last_instrument < i64::MAX,
    ensures
        instrument_submitted(before, after, fields, now, r) ==> if trimmed(field(fields, "name"@)).len()
            > 0 {
            &&& after@.instruments.len() == before@.instruments.len() + 1
            &&& after@.instruments.last().name == trimmed(field(fields, "name"@))
            &&& after@.instruments.last().slots == slots_typed(fields)
        } else {
            after == before
        },
        instrument_edited(before, after, id, fields, now, r) && parsed_int(id) == Some(n) && 0 <= i
            < before@.instruments.len() && before@.instruments[i].id == n ==> if trimmed(
            field(fields, "name"@),
        ).len() > 0 {
            &&& after@.instruments[i].id == n
            &&& after@.instruments[i].name == trimmed(field(fields, "name"@))
            &&& after@.instruments[i].slots == slots_typed(fields)
        } else {
            after == before
        },
{
    let name = field(fields, "name"@);
    let slots = slots_typed(fields);
    crate::table_laws::an_instrument_has_name_and_slots(before@, name, slots, now);
    if parsed_int(id) == Some(n) && 0 <= i < before@.instruments.len() && before@.instruments[i].id
        == n {
        crate::table_laws::an_instrument_keeps_its_number(before@, n, name, slots, now, i);
    }
}

/// An instrument or a procedure that is removed is gone, and every other stays.
pub proof fn a_removed_instrument_is_gone(
    before: Db,
    after: Db,
    id: Seq<char>,
    r: CommandResult,
    n: i64,
)
    requires
        parsed_int(id) == Some(n),
    ensures
        instrument_removed(before, after, id, r) ==> after@.instruments
            == before@.instruments.filter(|x: InstrumentRowView| x.id != n),
        mode_removed(before, after, id, r) ==> after@.modes == before@.modes.filter(
            |x: ModeView| x.id != n,
        ),
{
    lemma_has(before@.instruments, n);
    lemma_has(before@.modes, n);
    if !crate::db::present(before@.instruments, n) {
        lemma_all_stay(before@.instruments, |x: InstrumentRowView| x.id != n);
    }
    if !crate::db::present(before@.modes, n) {
        lemma_all_stay(before@.modes, |x: ModeView| x.id != n);
    }
    crate::table_laws::lemma_same_filter(
        before@.instruments,
        crate::records::instrument_is_not(n),
        |x: InstrumentRowView| x.id != n,
    );
    crate::table_laws::lemma_same_filter(before@.modes, crate::records::mode_is_not(n), |x: ModeView| x.id != n);
}

/// A procedure that is changed has the name, the kind and the details that were
/// typed, and keeps its instrument and its place.
pub proof fn a_procedure_is_as_typed(
    before: Db,
    after: Db,
    instrument: Seq<char>,
    mode: Seq<char>,
    fields: Dict<String>,
    now: Seq<char>,
    r: CommandResult,
    n: i64,
    i: int,
)
    requires
        before@.wf(),
        mode_edited(before, after, instrument, mode, fields, now, r),
        parsed_int(mode) == Some(n),
        0 <= i < before@.modes.len(),
        before@.modes[i].id == n,
        trimmed(field(fields, "name"@)).len() > 0,
        field(fields, "kind"@) == "charged"@ || field(fields, "kind"@) == "analysed"@,
    ensures
        after@.modes[i].id == n,
        after@.modes[i].name == trimmed(field(fields, "name"@)),
        after@.modes[i].kind == field(fields, "kind"@),
        after@.modes[i].details == trimmed(field(fields, "details"@)),
        after@.modes[i].instrument_id == before@.modes[i].instrument_id,
        after@.modes[i].position == before@.modes[i].position,
        after@.modes[i].fields == json_rules(rules_of(flags_typed(fields))),
{
    crate::table_laws::a_procedure_keeps_its_place(
        before@,
        n,
        field(fields, "name"@),
        field(fields, "kind"@),
        field(fields, "details"@),
        Some(rules_of(flags_typed(fields))),
        now,
        i,
    );
}

/// A procedure that is added belongs to the instrument at whose address the form
/// is, and is as was typed.
pub proof fn a_new_procedure_is_as_typed(
    before: Db,
    after: Db,
    instrument: Seq<char>,
    fields: Dict<String>,
    now: Seq<char>,
    r: CommandResult,
    n: i64,
)
    requires
        before@.wf(),
        before@.last_mode < i64::MAX,
        forall|j: int|
            0 <= j < before@.modes.len() ==> (#[trigger] before@.modes[j]).position < i64::MAX,
        mode_submitted(before, after, instrument, fields, now, r),
        parsed_int(instrument) == Some(n),
        exists|j: int|
            0 <= j < before@.instruments.len() && (#[trigger] before@.instruments[j]).id == n,
        trimmed(field(fields, "name"@)).len() > 0,
        field(fields, "kind"@) == "charged"@ || field(fields, "kind"@) == "analysed"@,
    ensures
        after@.modes.len() == before@.modes.len() + 1,
        after@.modes.last().instrument_id == n,
        after@.modes.last().name == trimmed(field(fields, "name"@)),
        after@.modes.last().kind == field(fields, "kind"@),
        after@.modes.last().details == trimmed(field(fields, "details"@)),
        after@.modes.last().fields == json_rules(rules_of(flags_typed(fields))),
{
    crate::table_laws::a_procedure_is_added_last(
        before@,
        n,
        field(fields, "name"@),
        field(fields, "kind"@),
        field(fields, "details"@),
        Some(rules_of(flags_typed(fields))),
        now,
    );
}

// ── Settings ────────────────────────────────────────────────────────────

/// After a reset nothing is saved for any setting.
pub proof fn a_reset_leaves_nothing_saved(before: Db, after: Db, r: CommandResult, i: int)
    requires
        settings_cleared(before, after, r),
        0 <= i < setting_list().len(),
    ensures
        stored(after@.settings, setting_list()[i].key) is None,
        after@.batteries == before@.batteries,
{
    crate::promises::a_reset_takes_back_every_setting(before@, i, setting_list().len() as int);
    lemma_cleared(before@, setting_list().len() as int);
}

proof fn lemma_cleared(d: DbView, n: int)
    ensures
        all_cleared(d, n).batteries == d.batteries,
    decreases n,
{
    if n > 0 {
        lemma_cleared(d, n - 1);
    }
}

} // verus!
