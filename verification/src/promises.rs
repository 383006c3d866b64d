//! What holds of the forms and the pages as a whole.

use vstd::prelude::*;
use crate::actions::location_chosen;
use crate::adding::{all_created, batteries_added, Reply};
use crate::api::scanned_move;
use crate::batch::{
    all_cleared, all_measured, all_moved, all_saved, batch_measured, is_active, rows_in_form,
    rows_plan,
};
use crate::config::{a_setting_is_trimmed, coerced, saved, setting_list};
use crate::db::{at, lemma_at, present, Db, DbErrorView, DbView};
use crate::dict::Dict;
use crate::helpers::{field, id_range};
use crate::laws::{
    clearing_keeps_the_tables_sound, creating_keeps_the_tables_sound,
    deleting_a_procedure_keeps_the_tables_sound, deleting_a_reading_keeps_the_tables_sound,
    deleting_an_instrument_keeps_the_tables_sound, deleting_keeps_the_tables_sound,
    deleting_records_moves_no_battery, editing_keeps_the_tables_sound,
    handing_out_moves_the_whole_set, instruments_keep_the_tables_sound, lemma_more_come_back,
    lemma_stored_filtered, measuring_keeps_the_tables_sound, moving_a_set_keeps_the_tables_sound,
    moving_changes_only_locations, only_moved, pooled, procedures_keep_the_tables_sound,
    purging_takes_a_deleted_unmeasured_battery, restoring_keeps_the_tables_sound,
    returning_a_match_keeps_the_tables_sound, returning_one_returns_the_whole_set,
    settings_keep_the_tables_sound,
};
use crate::pages::{pool_of, CommandResult};
use crate::printer::saves_pdf;
use crate::reads::stored;
use crate::records::ReadingView;
use crate::router::{done, shown, submitted, Action};
use crate::sets::moved_with_set;
use crate::text::{parsed_int, same_ignoring_case, trimmed};

verus! {

// ── Steps that are taken one after the other ────────────────────────────

proof fn lemma_all_measured(
    d: DbView,
    planned: Seq<(i64, ReadingView)>,
    now: Seq<char>,
    n: int,
)
    requires
        d.wf(),
    ensures
        all_measured(d, planned, now, n) matches Ok(e) ==> e.wf(),
    decreases n,
{
    if n > 0 {
        lemma_all_measured(d, planned, now, n - 1);
        if let Ok(e) = all_measured(d, planned, now, n - 1) {
            measuring_keeps_the_tables_sound(e, planned[n - 1].0, planned[n - 1].1, now);
        }
    }
}

proof fn lemma_all_moved(
    d: DbView,
    ids: Seq<i64>,
    location: Seq<char>,
    pool: Seq<char>,
    now: Seq<char>,
    n: int,
)
    requires
        d.wf(),
        trimmed(pool) == pool,
    ensures
        all_moved(d, ids, location, pool, now, n).tables.wf(),
    decreases n,
{
    if n > 0 {
        lemma_all_moved(d, ids, location, pool, now, n - 1);
        let m = all_moved(d, ids, location, pool, now, n - 1);
        moving_a_set_keeps_the_tables_sound(m.tables, ids[n - 1], location, pool, now);
    }
}

/// Of a move of several batteries each is accounted for once: it was moved, or
/// skipped, or the reason why its move could not be saved is told.
pub proof fn every_battery_of_a_batch_is_accounted_for(
    d: DbView,
    ids: Seq<i64>,
    location: Seq<char>,
    pool: Seq<char>,
    now: Seq<char>,
    n: int,
)
    requires
        0 <= n <= ids.len(),
    ensures
        ({
            let m = all_moved(d, ids, location, pool, now, n);
            m.moved + m.skipped.len() + m.faults.len() == n && m.moved >= 0
        }),
    decreases n,
{
    if n > 0 {
        every_battery_of_a_batch_is_accounted_for(d, ids, location, pool, now, n - 1);
    }
}

proof fn lemma_saved(d: DbView, key: Seq<char>, raw: Seq<char>, now: Seq<char>)
    requires
        d.wf(),
    ensures
        saved(d, key, raw, now) matches Ok(e) ==> e.wf(),
{
    settings_keep_the_tables_sound(d, key, raw, now);
    if let Some(s) = crate::config::setting_named(key) {
        if let Ok(v) = coerced(s, raw) {
            settings_keep_the_tables_sound(d, key, v.text(), now);
        }
    }
}

proof fn lemma_all_saved(d: DbView, fields: Dict<String>, now: Seq<char>, n: int)
    requires
        d.wf(),
    ensures
        all_saved(d, fields, now, n).0.wf(),
    decreases n,
{
    if n > 0 {
        lemma_all_saved(d, fields, now, n - 1);
        let s = setting_list()[n - 1];
        lemma_saved(
            all_saved(d, fields, now, n - 1).0,
            s.key,
            crate::batch::setting_typed(s, fields),
            now,
        );
    }
}

proof fn lemma_all_cleared(d: DbView, n: int)
    requires
        d.wf(),
    ensures
        all_cleared(d, n).wf(),
    decreases n,
{
    if n > 0 {
        lemma_all_cleared(d, n - 1);
        settings_keep_the_tables_sound(
            all_cleared(d, n - 1),
            setting_list()[n - 1].key,
            Seq::empty(),
            Seq::empty(),
        );
    }
}

proof fn lemma_all_created(
    d: DbView,
    ids: Seq<i64>,
    cell_type: Seq<char>,
    nominal: Option<i64>,
    brand: Seq<char>,
    location: Seq<char>,
    now: Seq<char>,
    n: int,
    id: i64,
)
    requires
        d.wf(),
        0 <= n <= ids.len(),
    ensures
        all_created(d, ids, cell_type, nominal, brand, location, now, n) matches Ok(e) ==> e.wf()
            && (present(d.batteries, id) || ids.take(n).contains(id) ==> present(e.batteries, id))
            && e.settings == d.settings,
    decreases n,
{
    if n > 0 {
        lemma_all_created(d, ids, cell_type, nominal, brand, location, now, n - 1, id);
        if let Ok(e) = all_created(d, ids, cell_type, nominal, brand, location, now, n - 1) {
            creating_keeps_the_tables_sound(
                e,
                ids[n - 1],
                cell_type,
                nominal,
                brand,
                location,
                seq![],
                now,
            );
            reveal_strlit("");
            assert(""@ =~= Seq::<char>::empty());
            if let Ok((f, b)) = crate::writes::created(
                e,
                ids[n - 1],
                cell_type,
                nominal,
                brand,
                location,
                ""@,
                now,
            ) {
                crate::db::lemma_has(e.batteries, id);
                crate::db::lemma_has(f.batteries, id);
                assert(f.batteries.last() == b);
                if present(e.batteries, id) {
                    let k = choose|k: int|
                        0 <= k < e.batteries.len() && (#[trigger] e.batteries[k]).id == id;
                    assert(f.batteries[k].id == id);
                }
                if ids.take(n).contains(id) {
                    let k = ids.take(n).index_of(id);
                    if k < n - 1 {
                        assert(ids.take(n - 1)[k] == id);
                    } else {
                        assert(f.batteries[f.batteries.len() - 1].id == id);
                    }
                }
            }
        }
    } else {
        assert(ids.take(n).len() == 0);
    }
}

// ── Every form and every link ───────────────────────────────────────────

/// Whatever form is sent, sound tables stay sound.
pub proof fn every_form_keeps_the_tables_sound(
    before: Db,
    after: Db,
    env: Dict<String>,
    action: Action,
    fields: Dict<String>,
    now: Seq<char>,
    today: Seq<char>,
    r: Reply,
)
    requires
        before@.wf(),
        submitted(before, after, env, action, fields, now, today, r),
    ensures
        after@.wf(),
{
    match action {
        Action::Add => {
            lemma_added_sound(before, after, env, fields, now, r);
        },
        Action::Print => {},
        Action::PrintOne(_) => {},
        _ => {
            lemma_done_sound(before, after, env, action, fields, now, today, r->Done_0);
        },
    }
}

proof fn lemma_added_sound(
    before: Db,
    after: Db,
    env: Dict<String>,
    fields: Dict<String>,
    now: Seq<char>,
    r: Reply,
)
    requires
        before@.wf(),
        batteries_added(before, after, env, fields, now, r),
    ensures
        after@.wf(),
{
    let start = crate::adding::first_number(before, fields);
    let count = crate::adding::count_typed(fields);
    let ids = id_range(start, (start + count - 1) as i64);
    lemma_all_created(
        before@,
        ids,
        trimmed(field(fields, "type"@)),
        parsed_int(trimmed(field(fields, "nominal_mah"@))),
        field(fields, "brand"@),
        field(fields, "location"@),
        now,
        ids.len() as int,
        0,
    );
}

proof fn lemma_done_sound(
    before: Db,
    after: Db,
    env: Dict<String>,
    action: Action,
    fields: Dict<String>,
    now: Seq<char>,
    today: Seq<char>,
    c: CommandResult,
)
    requires
        before@.wf(),
        done(before, after, env, action, fields, now, today, c),
    ensures
        after@.wf(),
{
    let d = before@;
    let pool = pool_of(before, env);
    a_setting_is_trimmed(d.settings, env, "pool_location"@);
    match action {
        Action::View => {
            lemma_saved(d, "list_view"@, field(fields, "view"@), now);
        },
        Action::DeleteMeasurement(id) => {
            if let Some(id) = parsed_int(id) {
                deleting_a_reading_keeps_the_tables_sound(d, id);
            }
        },
        Action::AddInstrument => {
            instruments_keep_the_tables_sound(
                d,
                0,
                field(fields, "name"@),
                crate::instruments::slots_typed(fields),
                now,
            );
        },
        Action::DeleteInstrument(id) => {
            if let Some(id) = parsed_int(id) {
                deleting_an_instrument_keeps_the_tables_sound(d, id);
            }
        },
        Action::EditInstrument(id) => {
            if let Some(id) = parsed_int(id) {
                instruments_keep_the_tables_sound(
                    d,
                    id,
                    field(fields, "name"@),
                    crate::instruments::slots_typed(fields),
                    now,
                );
            }
        },
        Action::AddMode(id) => {
            if let Some(id) = parsed_int(id) {
                lemma_mode_sound(d, id, fields, now);
            }
        },
        Action::EditMode(_, id) => {
            if let Some(id) = parsed_int(id) {
                lemma_mode_sound(d, id, fields, now);
            }
        },
        Action::DeleteMode(id) => {
            if let Some(id) = parsed_int(id) {
                deleting_a_procedure_keeps_the_tables_sound(d, id);
            }
        },
        Action::MoveMode(id) => {
            if let Some(id) = parsed_int(id) {
                lemma_mode_sound(d, id, fields, now);
            }
        },
        Action::BatchMeasure => {
            if let Ok((planned, _)) = rows_plan(d, fields, rows_in_form(fields)) {
                lemma_all_measured(d, planned, now, planned.len() as int);
            }
        },
        Action::BatchLocation => {
            if let Ok(ids) = crate::helpers::id_spec(field(fields, "spec"@)) {
                lemma_all_moved(
                    d,
                    ids,
                    field(fields, "location"@),
                    pool,
                    now,
                    ids.len() as int,
                );
            }
        },
        Action::Match => {
            lemma_match_sound(before, after, env, fields, now, c);
        },
        Action::DeleteMatch(id) => {
            if let Some(id) = parsed_int(id) {
                deleting_records_moves_no_battery(d, id);
            }
        },
        Action::ReturnMatch(id) => {
            if let Some(id) = parsed_int(id) {
                returning_a_match_keeps_the_tables_sound(d, id, pool, now);
            }
        },
        Action::DeleteEntry(id) => {
            if let Some(id) = parsed_int(id) {
                deleting_records_moves_no_battery(d, id);
            }
        },
        Action::Settings => {
            lemma_all_saved(d, fields, now, setting_list().len() as int);
        },
        Action::ResetSettings => {
            lemma_all_cleared(d, setting_list().len() as int);
        },
        Action::Measure(id) => {
            if let Some(id) = parsed_int(id) {
                if let Ok(reading) = crate::actions::form_reading(d, fields) {
                    measuring_keeps_the_tables_sound(d, id, reading, now);
                }
            }
        },
        _ => {
            lemma_battery_sound(before, after, env, action, fields, now, today, c);
        },
    }
}

proof fn lemma_battery_sound(
    before: Db,
    after: Db,
    env: Dict<String>,
    action: Action,
    fields: Dict<String>,
    now: Seq<char>,
    today: Seq<char>,
    c: CommandResult,
)
    requires
        before@.wf(),
        done(before, after, env, action, fields, now, today, c),
        action is Location || action is Edit || action is Delete || action is Purge
            || action is Restore || action is Reset || action is Unknown || action is Add
            || action is Print || action is PrintOne,
    ensures
        after@.wf(),
{
    let d = before@;
    let pool = pool_of(before, env);
    a_setting_is_trimmed(d.settings, env, "pool_location"@);
    match action {
        Action::Location(id) => {
            if let Some(id) = parsed_int(id) {
                moving_a_set_keeps_the_tables_sound(d, id, field(fields, "location"@), pool, now);
            }
        },
        Action::Edit(id) => {
            if let Some(id) = parsed_int(id) {
                editing_keeps_the_tables_sound(
                    d,
                    id,
                    Some(field(fields, "type"@)),
                    Some(parsed_int(trimmed(field(fields, "nominal_mah"@)))),
                    Some(field(fields, "brand"@)),
                    Some(field(fields, "notes"@)),
                    now,
                );
            }
        },
        Action::Delete(id) => {
            if let Some(id) = parsed_int(id) {
                deleting_keeps_the_tables_sound(d, id, now);
            }
        },
        Action::Purge(id) => {
            if let Some(id) = parsed_int(id) {
                purging_takes_a_deleted_unmeasured_battery(d, id);
            }
        },
        Action::Restore(id) => {
            if let Some(id) = parsed_int(id) {
                restoring_keeps_the_tables_sound(d, id, now);
            }
        },
        Action::Reset(id) => {
            if let Some(id) = parsed_int(id) {
                clearing_keeps_the_tables_sound(d, id, now);
            }
        },
        _ => {},
    }
}

proof fn lemma_mode_sound(d: DbView, id: i64, fields: Dict<String>, now: Seq<char>)
    requires
        d.wf(),
    ensures
        ({
            let rules = Some(
                crate::instruments::rules_of(crate::instruments::flags_typed(fields)),
            );
            let name = field(fields, "name"@);
            let kind = field(fields, "kind"@);
            let details = field(fields, "details"@);
            &&& crate::records::mode_added(d, id, name, kind, details, rules, now) matches Ok(
                (e, _),
            ) ==> e.wf()
            &&& crate::records::mode_updated(d, id, name, kind, details, rules, now) matches Ok(
                (e, _),
            ) ==> e.wf()
            &&& crate::records::mode_moved(d, id, field(fields, "direction"@), now) matches Ok(
                (e, _),
            ) ==> e.wf()
        }),
{
    procedures_keep_the_tables_sound(
        d,
        id,
        field(fields, "name"@),
        field(fields, "kind"@),
        field(fields, "details"@),
        Some(crate::instruments::rules_of(crate::instruments::flags_typed(fields))),
        field(fields, "direction"@),
        now,
    );
}

proof fn lemma_match_sound(
    before: Db,
    after: Db,
    env: Dict<String>,
    fields: Dict<String>,
    now: Seq<char>,
    c: CommandResult,
)
    requires
        before@.wf(),
        crate::handout::match_submitted(before, after, env, fields, now, c),
    ensures
        after@.wf(),
{
    let request = crate::handout::request_typed(fields);
    let draw = crate::handout::draw_typed(fields);
    let cs = crate::handout::candidates_of(before, env);
    if let Some(n) = crate::helpers::positive(request.match_count) {
        if let Ok(s) = crate::matching::suggested(
            cs,
            request.match_type,
            crate::handout::machine_count(n),
            draw,
        ) {
            handing_out_moves_the_whole_set(
                before@,
                request.match_location,
                request.match_type,
                draw.text(),
                s.battery_ids,
                now,
                0,
            );
        }
    }
}

/// Whatever link is followed, sound tables stay sound.
pub proof fn every_link_keeps_the_tables_sound(
    before: Db,
    after: Db,
    env: Dict<String>,
    path: Seq<char>,
    q: Dict<String>,
    now: Seq<char>,
    today: Seq<char>,
    r: CommandResult,
)
    requires
        before@.wf(),
        shown(before, after, env, path, q, now, today, r),
    ensures
        after@.wf(),
{
    let f = crate::list::chosen(
        q,
        stored(before@.settings, crate::list::LIST_FILTERS_KEY@),
    );
    settings_keep_the_tables_sound(
        before@,
        crate::list::LIST_FILTERS_KEY@,
        crate::json::json_object(crate::list::remembered(f)),
        now,
    );
}

/// A form that comes back as a page instead of leading on has changed nothing.
/// The settings form is another matter: it saves what stands before the setting
/// that it refuses.
pub proof fn a_form_that_comes_back_has_changed_nothing(
    before: Db,
    after: Db,
    env: Dict<String>,
    action: Action,
    fields: Dict<String>,
    now: Seq<char>,
    today: Seq<char>,
    c: CommandResult,
)
    requires
        submitted(before, after, env, action, fields, now, today, Reply::Done(c)),
        !(action is Settings),
        c is Page,
    ensures
        after@ == before@,
{
}

/// Nothing is printed while labels are saved as a file.
pub proof fn nothing_is_printed_while_labels_are_saved(
    before: Db,
    after: Db,
    env: Dict<String>,
    action: Action,
    fields: Dict<String>,
    now: Seq<char>,
    today: Seq<char>,
    r: Reply,
)
    requires
        submitted(before, after, env, action, fields, now, today, r),
        saves_pdf(after@.settings, env),
    ensures
        r is Done,
{
}

/// Either every battery that a form asks for is added, or nothing changes.
pub proof fn batteries_are_added_together_or_not_at_all(
    before: Db,
    after: Db,
    env: Dict<String>,
    fields: Dict<String>,
    now: Seq<char>,
    r: Reply,
    id: i64,
)
    requires
        before@.wf(),
        batteries_added(before, after, env, fields, now, r),
    ensures
        after@ == before@ || ({
            let start = crate::adding::first_number(before, fields);
            start <= id < start + crate::adding::count_typed(fields) ==> present(
                after@.batteries,
                id,
            )
        }),
{
    let start = crate::adding::first_number(before, fields);
    let count = crate::adding::count_typed(fields);
    let ids = id_range(start, (start + count - 1) as i64);
    if start + count - 1 <= i64::MAX {
        lemma_all_created(
            before@,
            ids,
            trimmed(field(fields, "type"@)),
            parsed_int(trimmed(field(fields, "nominal_mah"@))),
            field(fields, "brand"@),
            field(fields, "location"@),
            now,
            ids.len() as int,
            id,
        );
        assert(ids.take(ids.len() as int) =~= ids);
        if start <= id < start + count {
            assert(ids[id - start] == id);
        }
    }
}

/// A batch of readings is saved as a whole: it leads on only where every row
/// that names a battery makes a reading, and what is saved are those readings.
pub proof fn a_batch_of_readings_is_saved_as_a_whole(
    before: Db,
    after: Db,
    fields: Dict<String>,
    now: Seq<char>,
    today: Seq<char>,
    c: CommandResult,
)
    requires
        batch_measured(before, after, fields, now, today, c),
    ensures
        c is Page ==> after == before,
        c is Redirect ==> (rows_plan(before@, fields, rows_in_form(fields)) matches Ok((planned, _))
            && all_measured(before@, planned, now, planned.len() as int) == Ok::<
            DbView,
            (i64, DbErrorView),
        >(after@)),
{
}

// ── Sets that come back ─────────────────────────────────────────────────

/// A battery that is scanned back into the pool brings the rest of its set
/// with it.
pub proof fn a_scanned_battery_brings_its_set_back(
    before: Db,
    env: Dict<String>,
    id: i64,
    location: Seq<char>,
    now: Seq<char>,
    k: int,
    member: i64,
)
    requires
        before@.wf(),
        present(before@.batteries, id),
        same_ignoring_case(trimmed(location), pool_of(before, env)),
        0 <= k < before@.matches.len(),
        before@.matches[k].returned_at is None,
        before@.matches[k].battery_ids.contains(id),
        before@.matches[k].battery_ids.contains(member),
    ensures
        scanned_move(before@, id, location, pool_of(before, env), now) matches Ok((e, _)) ==> {
            &&& e.matches[k].returned_at == Some(now)
            &&& pooled(e, pool_of(before, env), member)
        },
{
    let pool = pool_of(before, env);
    a_setting_is_trimmed(before@.settings, env, "pool_location"@);
    returning_one_returns_the_whole_set(before@, id, location, pool, now, k, member);
}

/// A battery that is moved back into the pool from its page brings the rest of
/// its set with it.
pub proof fn a_moved_battery_brings_its_set_back(
    before: Db,
    after: Db,
    env: Dict<String>,
    id: Seq<char>,
    fields: Dict<String>,
    now: Seq<char>,
    c: CommandResult,
    k: int,
    member: i64,
)
    requires
        before@.wf(),
        location_chosen(before, after, env, id, fields, now, c),
        parsed_int(id) matches Some(n) && present(before@.batteries, n)
            && before@.matches[k].battery_ids.contains(n),
        same_ignoring_case(trimmed(field(fields, "location"@)), pool_of(before, env)),
        0 <= k < before@.matches.len(),
        before@.matches[k].returned_at is None,
        before@.matches[k].battery_ids.contains(member),
    ensures
        after@ == before@ || {
            &&& after@.matches[k].returned_at == Some(now)
            &&& pooled(after@, pool_of(before, env), member)
        },
{
    let pool = pool_of(before, env);
    a_setting_is_trimmed(before@.settings, env, "pool_location"@);
    returning_one_returns_the_whole_set(
        before@,
        parsed_int(id)->0,
        field(fields, "location"@),
        pool,
        now,
        k,
        member,
    );
}

proof fn lemma_stays_active(d: DbView, e: DbView, id: i64)
    requires
        only_moved(d, e),
    ensures
        is_active(e, id) == is_active(d, id),
{
    lemma_at(d.batteries, id, 0);
    lemma_at(e.batteries, id, 0);
    let a = at(d.batteries, id, 0);
    let b = at(e.batteries, id, 0);
    if a < b {
        assert(e.batteries[a].id == d.batteries[a].id);
    }
    if b < a {
        assert(e.batteries[b].id == d.batteries[b].id);
    }
}

proof fn lemma_batch_active(
    d: DbView,
    ids: Seq<i64>,
    location: Seq<char>,
    pool: Seq<char>,
    now: Seq<char>,
    n: int,
    id: i64,
)
    ensures
        is_active(all_moved(d, ids, location, pool, now, n).tables, id) == is_active(d, id),
    decreases n,
{
    if n > 0 {
        lemma_batch_active(d, ids, location, pool, now, n - 1, id);
        let m = all_moved(d, ids, location, pool, now, n - 1).tables;
        moving_changes_only_locations(m, ids[n - 1], location, pool, now);
        if let Ok((e, _)) = moved_with_set(m, ids[n - 1], location, pool, now) {
            lemma_stays_active(m, e, id);
        }
    }
}

proof fn lemma_batch_back(
    d: DbView,
    ids: Seq<i64>,
    location: Seq<char>,
    pool: Seq<char>,
    now: Seq<char>,
    n: int,
    k: int,
    member: i64,
)
    requires
        d.wf(),
        trimmed(pool) == pool,
        same_ignoring_case(trimmed(location), pool),
        0 <= k < d.matches.len(),
        d.matches[k].battery_ids.contains(member),
        d.matches[k].returned_at is None,
    ensures
        ({
            let e = all_moved(d, ids, location, pool, now, n).tables;
            &&& e.wf()
            &&& e.matches.len() == d.matches.len()
            &&& e.matches[k].battery_ids == d.matches[k].battery_ids
            &&& e.matches[k].returned_at is Some ==> pooled(e, pool, member)
        }),
    decreases n,
{
    if n > 0 {
        lemma_batch_back(d, ids, location, pool, now, n - 1, k, member);
        let m = all_moved(d, ids, location, pool, now, n - 1).tables;
        lemma_more_come_back(m, ids[n - 1], location, pool, now, k, member);
    }
}

/// Where several batteries are moved back into the pool at once, each whose
/// move can be recorded brings the rest of its set with it.
pub proof fn a_batch_brings_its_sets_back(
    d: DbView,
    ids: Seq<i64>,
    location: Seq<char>,
    pool: Seq<char>,
    now: Seq<char>,
    n: int,
    j: int,
    k: int,
    member: i64,
)
    requires
        d.wf(),
        trimmed(pool) == pool,
        same_ignoring_case(trimmed(location), pool),
        0 <= j < n <= ids.len(),
        is_active(d, ids[j]),
        moved_with_set(
            all_moved(d, ids, location, pool, now, j).tables,
            ids[j],
            location,
            pool,
            now,
        ) is Ok,
        0 <= k < d.matches.len(),
        d.matches[k].returned_at is None,
        d.matches[k].battery_ids.contains(ids[j]),
        d.matches[k].battery_ids.contains(member),
    ensures
        ({
            let e = all_moved(d, ids, location, pool, now, n).tables;
            e.matches[k].returned_at is Some && pooled(e, pool, member)
        }),
    decreases n,
{
    let m = all_moved(d, ids, location, pool, now, n - 1).tables;
    lemma_batch_back(d, ids, location, pool, now, n - 1, k, member);
    lemma_batch_active(d, ids, location, pool, now, n - 1, ids[n - 1]);
    lemma_more_come_back(m, ids[n - 1], location, pool, now, k, member);
    if j < n - 1 {
        a_batch_brings_its_sets_back(d, ids, location, pool, now, n - 1, j, k, member);
    } else if m.matches[k].returned_at is None {
        crate::db::lemma_has(m.batteries, ids[j]);
        returning_one_returns_the_whole_set(m, ids[j], location, pool, now, k, member);
    }
}

// ── Settings ────────────────────────────────────────────────────────────

/// Resetting the settings takes back everything that was saved for any of them.
pub proof fn a_reset_takes_back_every_setting(d: DbView, i: int, n: int)
    requires
        0 <= i < n <= setting_list().len(),
    ensures
        stored(all_cleared(d, n).settings, setting_list()[i].key) is None,
    decreases n,
{
    let key = setting_list()[n - 1].key;
    let e = all_cleared(d, n - 1);
    let other = setting_list()[i].key;
    if i < n - 1 {
        a_reset_takes_back_every_setting(d, i, n - 1);
    }
    if other == key {
        assert(key.push(' ').len() != key.len());
        lemma_stored_filtered(e.settings, key, key.push(' '));
    } else {
        lemma_stored_filtered(e.settings, key, other);
    }
}

} // verus!
