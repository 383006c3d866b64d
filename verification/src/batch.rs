//! What the forms for several batteries at once do, and the settings form.

use vstd::prelude::*;
use vstd::string::*;
use crate::actions::{go_with, go_with_two, read_values, reading_typed, values_typed};
use crate::config::{clear, save, saved, setting_list, settings, Kind, SettingSpecView};
use crate::db::{lemma_views_at, present, row, views_of, Db, DbErrorView, DbView};
use crate::dict::Dict;
use crate::helpers::{
    clean_reading, field, get_row_str, get_str, id_list, id_list_text, id_spec, number_list,
    number_list_text, parse_id_spec, parse_positive_int, positive, row_field, whole_number,
};
use crate::order::{sort, sorted, Ascending};
use crate::pages::{
    is_batch_location_page, is_batch_measure_page, is_empty_batch_page, is_settings_page,
    page_batch_location, page_batch_measure, page_batch_measure_empty, page_settings,
    pool_location, pool_of, CommandResult, BOUGHT_ROWS, SLOT_ROWS,
};
use crate::records::{measured, setting_deleted, Reading, ReadingView};
use crate::rows::{Battery, BatteryView};
use crate::select::{kept, select, Test};
use crate::sets::moved_with_set;
use crate::text::{
    int_text, join, joined, lemma_views_push, parsed_int, push_int, same, trimmed, views,
};

verus! {

// ── Readings ────────────────────────────────────────────────────────────

/// What one row of the form asks for.
pub enum RowPlan {
    /// The row names no battery.
    Skip,
    /// The row names a battery that was never there.
    Missing(i64),
    /// What the row says makes no reading.
    Fault(Seq<char>),
    /// A reading to save.
    Save(i64, ReadingView),
}

pub open spec fn row_plan(d: DbView, fields: Dict<String>, i: int) -> RowPlan {
    match positive(row_field(fields, "battery_id"@, i)) {
        None => RowPlan::Skip,
        Some(id) => if !present(d.batteries, id) {
            RowPlan::Missing(id)
        } else {
            match reading_typed(
                d,
                field(fields, "kind"@),
                field(fields, "measured_at"@),
                parsed_int(trimmed(field(fields, "instrument_id"@))),
                parsed_int(trimmed(field(fields, "mode_id"@))),
                values_typed(
                    row_field(fields, "capacity_mah"@, i),
                    row_field(fields, "ir_mohm"@, i),
                    row_field(fields, "discharge_ma"@, i),
                    row_field(fields, "charge_ma"@, i),
                ),
                row_field(fields, "notes"@, i),
            ) {
                Ok(reading) => RowPlan::Save(id, reading),
                Err(e) => RowPlan::Fault("Battery "@ + int_text(id as int) + ": "@ + e),
            }
        },
    }
}

/// What the first `n` rows ask for: the readings to save, and the batteries
/// that were never there. The first row with a fault says what it is.
pub open spec fn rows_plan(d: DbView, fields: Dict<String>, n: int) -> Result<
    (Seq<(i64, ReadingView)>, Seq<i64>),
    Seq<char>,
>
    decreases n,
{
    if n <= 0 {
        Ok((Seq::empty(), Seq::empty()))
    } else {
        match rows_plan(d, fields, n - 1) {
            Err(e) => Err(e),
            Ok((found, missing)) => match row_plan(d, fields, n) {
                RowPlan::Skip => Ok((found, missing)),
                RowPlan::Missing(id) => Ok((found, missing.push(id))),
                RowPlan::Fault(e) => Err(e),
                RowPlan::Save(id, reading) => Ok((found.push((id, reading)), missing)),
            },
        }
    }
}

/// Saving the first `n` of some readings; says at which battery it failed.
pub open spec fn all_measured(
    d: DbView,
    planned: Seq<(i64, ReadingView)>,
    now: Seq<char>,
    n: int,
) -> Result<DbView, (i64, DbErrorView)>
    decreases n,
{
    if n <= 0 {
        Ok(d)
    } else {
        match all_measured(d, planned, now, n - 1) {
            Err(e) => Err(e),
            Ok(e) => match measured(e, planned[n - 1].0, planned[n - 1].1, now) {
                Ok((f, _)) => Ok(f),
                Err(why) => Err((planned[n - 1].0, why)),
            },
        }
    }
}

/// How many rows the form has.
pub open spec fn rows_in_form(fields: Dict<String>) -> int {
    if field(fields, "kind"@) == "bought"@ {
        BOUGHT_ROWS as int
    } else {
        SLOT_ROWS as int
    }
}

pub open spec fn recorded_text(saved: int, missing: Seq<i64>) -> Seq<char> {
    let first = int_text(saved) + " reading(s) recorded."@;
    if missing.len() == 0 {
        first
    } else {
        first + " Skipped (no such battery): "@ + number_list_text(missing, ", "@) + "."@
    }
}

/// Readings of several batteries: every row is checked before any is saved,
/// and either all of them are saved or none.
pub open spec fn batch_measured(
    before: Db,
    after: Db,
    fields: Dict<String>,
    now: Seq<char>,
    today: Seq<char>,
    r: CommandResult,
) -> bool {
    match rows_plan(before@, fields, rows_in_form(fields)) {
        Err(e) => after == before && is_batch_measure_page(r, after, today, ""@, e, fields),
        Ok((planned, missing)) => if planned.len() == 0 && missing.len() == 0 {
            after == before && is_empty_batch_page(
                r,
                after,
                today,
                ""@,
                "No battery ids were given."@,
            )
        } else if planned.len() == 0 {
            after == before && is_batch_measure_page(
                r,
                after,
                today,
                ""@,
                "No battery has ever had id(s) "@ + number_list_text(missing, ", "@) + "."@,
                fields,
            )
        } else {
            match all_measured(before@, planned, now, planned.len() as int) {
                Ok(d) => after@ == d && r.leads(
                    "/batch/measure"@,
                    seq![("msg"@, recorded_text(planned.len() as int, missing))],
                ),
                Err((id, why)) => after == before && is_batch_measure_page(
                    r,
                    after,
                    today,
                    ""@,
                    "Battery "@ + int_text(id as int) + ": "@ + why.text(),
                    fields,
                ),
            }
        },
    }
}

/// A reading of a battery that is to be saved.
struct Planned {
    id: i64,
    reading: Reading,
}

spec fn plan_views(v: Seq<Planned>) -> Seq<(i64, ReadingView)> {
    v.map_values(|p: Planned| (p.id, p.reading@))
}

enum Step {
    Skip,
    Missing(i64),
    Fault(String),
    Save(Planned),
}

spec fn step_of(s: Step) -> RowPlan {
    match s {
        Step::Skip => RowPlan::Skip,
        Step::Missing(id) => RowPlan::Missing(id),
        Step::Fault(e) => RowPlan::Fault(e@),
        Step::Save(p) => RowPlan::Save(p.id, p.reading@),
    }
}

fn named(id: i64, e: &str) -> (r: String)
    ensures
        r@ == "Battery "@ + int_text(id as int) + ": "@ + e@,
{
    let mut m = "Battery ".to_string();
    push_int(&mut m, id as i128);
    m.append(": ");
    m.append(e);
    m
}

fn plan_row(db: &Db, fields: &Dict<String>, i: u8) -> (r: Step)
    ensures
        step_of(r) == row_plan(db@, *fields, i as int),
{
    let id = match parse_positive_int(get_row_str(fields, "battery_id", i)) {
        Some(id) => id,
        None => return Step::Skip,
    };
    proof {
        lemma_views_at::<BatteryView, Battery>(db.batteries@, id, 0);
    }
    if let Ok(None) = db.get(id) {
        return Step::Missing(id);
    }
    let kind = get_str(fields, "kind");
    let instrument_id = whole_number(get_str(fields, "instrument_id"));
    let mode_id = whole_number(get_str(fields, "mode_id"));
    let v = match read_values(
        get_row_str(fields, "capacity_mah", i),
        get_row_str(fields, "ir_mohm", i),
        get_row_str(fields, "discharge_ma", i),
        get_row_str(fields, "charge_ma", i),
    ) {
        Ok(v) => v,
        Err(e) => return Step::Fault(named(id, e.as_str())),
    };
    if let Err(e) = clean_reading(
        db,
        kind,
        v.capacity_mah,
        v.ir_mohm,
        instrument_id,
        mode_id,
        v.discharge_ma,
        v.charge_ma,
    ) {
        return Step::Fault(named(id, e.as_str()));
    }
    Step::Save(
        Planned {
            id,
            reading: Reading {
                kind: kind.to_string(),
                measured_at: get_str(fields, "measured_at").to_string(),
                capacity_mah: v.capacity_mah,
                ir_mohm: v.ir_mohm,
                instrument_id,
                mode_id,
                discharge_ma: v.discharge_ma,
                charge_ma: v.charge_ma,
                notes: get_row_str(fields, "notes", i).to_string(),
            },
        },
    )
}

/// A fault in a row decides for the whole form.
proof fn lemma_first_fault(d: DbView, fields: Dict<String>, n: int, all: int)
    requires
        0 <= n <= all,
        rows_plan(d, fields, n) is Err,
    ensures
        rows_plan(d, fields, all) == rows_plan(d, fields, n),
    decreases all - n,
{
    if n < all {
        lemma_first_fault(d, fields, n, all - 1);
    }
}

fn plan_rows(db: &Db, fields: &Dict<String>, rows: u8) -> (r: Result<
    (Vec<Planned>, Vec<i64>),
    String,
>)
    ensures
        match r {
            Ok((planned, missing)) => rows_plan(db@, *fields, rows as int) == Ok::<
                (Seq<(i64, ReadingView)>, Seq<i64>),
                Seq<char>,
            >((plan_views(planned@), missing@)),
            Err(e) => rows_plan(db@, *fields, rows as int) == Err::<
                (Seq<(i64, ReadingView)>, Seq<i64>),
                Seq<char>,
            >(e@),
        },
{
    let mut planned: Vec<Planned> = Vec::new();
    let mut missing: Vec<i64> = Vec::new();
    let mut i: u8 = 0;
    assert(plan_views(planned@) =~= Seq::empty());
    assert(missing@ =~= Seq::empty());
    while i < rows
        invariant
            i <= rows,
            rows_plan(db@, *fields, i as int) == Ok::<
                (Seq<(i64, ReadingView)>, Seq<i64>),
                Seq<char>,
            >((plan_views(planned@), missing@)),
        decreases rows - i,
    {
        match plan_row(db, fields, i + 1) {
            Step::Skip => {},
            Step::Missing(id) => {
                missing.push(id);
            },
            Step::Fault(e) => {
                proof {
                    lemma_first_fault(db@, *fields, i + 1, rows as int);
                }
                return Err(e);
            },
            Step::Save(p) => {
                let ghost before = planned@;
                planned.push(p);
                assert(plan_views(planned@) =~= plan_views(before).push((p.id, p.reading@)));
            },
        }
        i = i + 1;
    }
    Ok((planned, missing))
}

/// A failure decides for the whole batch.
proof fn lemma_first_failure(
    d: DbView,
    planned: Seq<(i64, ReadingView)>,
    now: Seq<char>,
    n: int,
    all: int,
)
    requires
        0 <= n <= all,
        all_measured(d, planned, now, n) is Err,
    ensures
        all_measured(d, planned, now, all) == all_measured(d, planned, now, n),
    decreases all - n,
{
    if n < all {
        lemma_first_failure(d, planned, now, n, all - 1);
    }
}

fn save_all(db: &mut Db, planned: &Vec<Planned>, now: &str) -> (r: Result<(), String>)
    ensures
        ({
            let outcome = all_measured(
                old(db)@,
                plan_views(planned@),
                now@,
                planned@.len() as int,
            );
            match r {
                Ok(_) => outcome == Ok::<DbView, (i64, DbErrorView)>(final(db)@),
                Err(e) => *final(db) == *old(db) && (outcome matches Err((id, why)) && e@
                    == "Battery "@ + int_text(id as int) + ": "@ + why.text()),
            }
        }),
{
    let mut draft = db.clone();
    let ghost all = plan_views(planned@);
    let mut i: usize = 0;
    while i < planned.len()
        invariant
            i <= planned@.len(),
            *db == *old(db),
            all == plan_views(planned@),
            all_measured(old(db)@, all, now@, i as int) == Ok::<DbView, (i64, DbErrorView)>(draft@),
        decreases planned@.len() - i,
    {
        assert(all[i as int] == (planned@[i as int].id, planned@[i as int].reading@));
        match draft.add_reading(planned[i].id, &planned[i].reading, now) {
            Ok(_) => {},
            Err(e) => {
                proof {
                    lemma_first_failure(old(db)@, all, now@, i + 1, planned@.len() as int);
                }
                return Err(named(planned[i].id, e.message().as_str()));
            },
        }
        i = i + 1;
    }
    *db = draft;
    Ok(())
}

pub fn submit_batch_measure(db: &mut Db, fields: &Dict<String>, now: &str, today: &str) -> (r:
    CommandResult)
    ensures
        batch_measured(*old(db), *final(db), *fields, now@, today@, r),
{
    let rows = if same(get_str(fields, "kind"), "bought") {
        BOUGHT_ROWS
    } else {
        SLOT_ROWS
    };
    let (planned, missing) = match plan_rows(db, fields, rows) {
        Ok(p) => p,
        Err(e) => return page_batch_measure(db, today, "", e.as_str(), fields),
    };
    assert(plan_views(planned@).len() == planned@.len());
    if planned.len() == 0 {
        if missing.len() == 0 {
            return page_batch_measure_empty(db, today, "", "No battery ids were given.");
        }
        let mut m = "No battery has ever had id(s) ".to_string();
        m.append(number_list(&missing, ", ").as_str());
        m.append(".");
        return page_batch_measure(db, today, "", m.as_str(), fields);
    }
    if let Err(e) = save_all(db, &planned, now) {
        return page_batch_measure(db, today, "", e.as_str(), fields);
    }
    let mut m = String::new();
    push_int(&mut m, planned.len() as i128);
    assert(m@ =~= int_text(planned@.len() as int));
    m.append(" reading(s) recorded.");
    if missing.len() > 0 {
        m.append(" Skipped (no such battery): ");
        m.append(number_list(&missing, ", ").as_str());
        m.append(".");
    }
    go_with("/batch/measure", "msg", m.as_str())
}

// ── Locations ───────────────────────────────────────────────────────────

/// Whether a battery is there and not deleted.
pub open spec fn is_active(d: DbView, id: i64) -> bool {
    row(d.batteries, id) matches Some(b) && b.deleted_at is None
}

/// What became of a move of several batteries.
pub struct Moves {
    pub tables: DbView,
    pub moved: int,
    pub skipped: Seq<i64>,
    pub also: Seq<i64>,
    pub faults: Seq<Seq<char>>,
}

/// Moving the first `n` of some batteries; those that are not there or deleted
/// are skipped, and of each move that cannot be saved it is kept why.
pub open spec fn all_moved(
    d: DbView,
    ids: Seq<i64>,
    location: Seq<char>,
    pool: Seq<char>,
    now: Seq<char>,
    n: int,
) -> Moves
    decreases n,
{
    if n <= 0 {
        Moves {
            tables: d,
            moved: 0,
            skipped: Seq::empty(),
            also: Seq::empty(),
            faults: Seq::empty(),
        }
    } else {
        let m = all_moved(d, ids, location, pool, now, n - 1);
        let id = ids[n - 1];
        if !is_active(m.tables, id) {
            Moves { skipped: m.skipped.push(id), ..m }
        } else {
            match moved_with_set(m.tables, id, location, pool, now) {
                Ok((e, (_, others))) => Moves {
                    tables: e,
                    moved: m.moved + 1,
                    also: m.also + others,
                    ..m
                },
                Err(why) => Moves {
                    faults: m.faults.push("Battery "@ + int_text(id as int) + ": "@ + why.text()),
                    ..m
                },
            }
        }
    }
}

/// A number that is none of some others.
pub struct NotAmong {
    pub ids: Vec<i64>,
}

impl Test<i64> for NotAmong {
    open spec fn holds(&self, x: i64) -> bool {
        !self.ids@.contains(x)
    }

    fn check(&self, x: &i64) -> (r: bool) {
        let mut i: usize = 0;
        while i < self.ids.len()
            invariant
                i <= self.ids@.len(),
                forall|j: int| 0 <= j < i ==> self.ids@[j] != *x,
            decreases self.ids@.len() - i,
        {
            if self.ids[i] == *x {
                return false;
            }
            i = i + 1;
        }
        true
    }
}

/// A sorted list with each number once.
pub open spec fn once(s: Seq<i64>) -> Seq<i64>
    decreases s.len(),
{
    if s.len() < 2 {
        s
    } else if s.last() == s[s.len() - 2] {
        once(s.drop_last())
    } else {
        once(s.drop_last()).push(s.last())
    }
}

pub open spec fn not_among(ids: Seq<i64>) -> spec_fn(i64) -> bool {
    |x: i64| !ids.contains(x)
}

/// The batteries that were moved without being asked for, each once, by number.
pub open spec fn also_returned(also: Seq<i64>, ids: Seq<i64>) -> Seq<i64> {
    once(sorted(Ascending, also.filter(not_among(ids))))
}

proof fn lemma_kept_others(p: NotAmong, s: Seq<i64>)
    ensures
        kept(p, s) == s.filter(not_among(p.ids@)),
    decreases s.len(),
{
    reveal(Seq::filter);
    if s.len() > 0 {
        lemma_kept_others(p, s.drop_last());
    } else {
        assert(s.filter(not_among(p.ids@)) =~= s);
    }
}

fn each_once(v: Vec<i64>) -> (r: Vec<i64>)
    ensures
        r@ == once(v@),
{
    let mut out: Vec<i64> = Vec::new();
    let mut i: usize = 0;
    assert(out@ =~= once(v@.take(0)));
    while i < v.len()
        invariant
            i <= v@.len(),
            out@ == once(v@.take(i as int)),
        decreases v@.len() - i,
    {
        let ghost next = v@.take(i + 1);
        assert(next.drop_last() =~= v@.take(i as int));
        let ghost done = out@;
        if i == 0 || v[i] != v[i - 1] {
            out.push(v[i]);
        }
        proof {
            if i == 0 {
                assert(v@.take(0).len() == 0);
                assert(done =~= Seq::empty());
                assert(out@ =~= next);
            }
        }
        i = i + 1;
    }
    assert(v@.take(i as int) =~= v@);
    out
}

pub open spec fn moved_text(m: Moves, also: Seq<i64>) -> Seq<char> {
    let first = int_text(m.moved) + " batter"@ + crate::list::plural(m.moved) + " moved."@;
    let second = if also.len() == 0 {
        first
    } else {
        first + " Also returned from the same match: "@ + id_list_text(also) + "."@
    };
    if m.skipped.len() == 0 {
        second
    } else {
        second + " Skipped: "@ + number_list_text(m.skipped, ", "@) + "."@
    }
}

/// Moving several batteries to one place.
pub open spec fn batch_moved(
    before: Db,
    after: Db,
    env: Dict<String>,
    fields: Dict<String>,
    now: Seq<char>,
    r: CommandResult,
) -> bool {
    let typed = field(fields, "spec"@);
    let location = field(fields, "location"@);
    match id_spec(typed) {
        Err(e) => after == before && is_batch_location_page(r, after, ""@, e, typed, location),
        Ok(ids) => {
            let m = all_moved(
                before@,
                ids,
                location,
                pool_of(before, env),
                now,
                ids.len() as int,
            );
            after@ == m.tables && r.leads(
                "/batch/location"@,
                seq![
                    ("msg"@, moved_text(m, also_returned(m.also, ids))),
                    ("error"@, joined(m.faults, ", "@)),
                ],
            )
        },
    }
}

fn active(db: &Db, id: i64) -> (r: bool)
    ensures
        r == is_active(db@, id),
{
    proof {
        lemma_views_at::<BatteryView, Battery>(db.batteries@, id, 0);
        crate::db::lemma_views(db.batteries@);
        crate::db::lemma_at(db.batteries@, id, 0);
    }
    match db.get(id) {
        Ok(Some(b)) => b.deleted_at.is_none(),
        _ => false,
    }
}

pub fn submit_batch_location(db: &mut Db, env: &Dict<String>, fields: &Dict<String>, now: &str) -> (r:
    CommandResult)
    ensures
        batch_moved(*old(db), *final(db), *env, *fields, now@, r),
{
    let typed = get_str(fields, "spec");
    let location = get_str(fields, "location");
    let ids = match parse_id_spec(typed) {
        Ok(ids) => ids,
        Err(e) => return page_batch_location(db, "", e.as_str(), typed, location),
    };
    let pool = pool_location(db, env);
    let mut moved: usize = 0;
    let mut skipped: Vec<i64> = Vec::new();
    let mut also: Vec<i64> = Vec::new();
    let mut faults: Vec<String> = Vec::new();
    let mut i: usize = 0;
    let ghost start = db@;
    proof {
        let m = all_moved(start, ids@, location@, pool@, now@, 0);
        assert(skipped@ =~= m.skipped && also@ =~= m.also && views(faults@) =~= m.faults);
    }
    while i < ids.len()
        invariant
            i <= ids@.len(),
            moved <= i,
            ({
                let m = all_moved(start, ids@, location@, pool@, now@, i as int);
                &&& db@ == m.tables
                &&& moved == m.moved
                &&& skipped@ == m.skipped
                &&& also@ == m.also
                &&& views(faults@) == m.faults
            }),
        decreases ids@.len() - i,
    {
        let id = ids[i];
        if active(db, id) {
            match db.set_location_checked(id, location, pool.as_str(), now) {
                Ok((_, mut others)) => {
                    also.append(&mut others);
                    moved = moved + 1;
                },
                Err(e) => {
                    let why = named(id, e.message().as_str());
                    proof {
                        lemma_views_push(faults@, why);
                    }
                    faults.push(why);
                },
            }
        } else {
            skipped.push(id);
        }
        i = i + 1;
    }
    let mut m = String::new();
    push_int(&mut m, moved as i128);
    assert(m@ =~= int_text(moved as int));
    m.append(" batter");
    m.append(
        if moved == 1 {
            "y"
        } else {
            "ies"
        },
    );
    m.append(" moved.");
    let test = NotAmong { ids };
    proof {
        lemma_kept_others(test, also@);
    }
    let also = each_once(sort(&Ascending, select(&test, &also)));
    if also.len() > 0 {
        m.append(" Also returned from the same match: ");
        m.append(id_list(&also).as_str());
        m.append(".");
    }
    if skipped.len() > 0 {
        m.append(" Skipped: ");
        m.append(number_list(&skipped, ", ").as_str());
        m.append(".");
    }
    let error = join(&faults, ", ");
    go_with_two("/batch/location", "msg", m.as_str(), "error", error.as_str())
}

// ── Settings ────────────────────────────────────────────────────────────

/// What the form says of a setting: a switch is on where its field was sent.
pub open spec fn setting_typed(s: SettingSpecView, fields: Dict<String>) -> Seq<char> {
    if s.kind is Bool {
        if fields.spec_contains(s.key) {
            "1"@
        } else {
            "0"@
        }
    } else {
        field(fields, s.key)
    }
}

/// Saving the first `n` settings; stops at the first one that is refused.
pub open spec fn all_saved(d: DbView, fields: Dict<String>, now: Seq<char>, n: int) -> (
    DbView,
    Option<Seq<char>>,
)
    decreases n,
{
    if n <= 0 {
        (d, None)
    } else {
        let (e, fault) = all_saved(d, fields, now, n - 1);
        let s = setting_list()[n - 1];
        if fault is Some {
            (e, fault)
        } else {
            match saved(e, s.key, setting_typed(s, fields), now) {
                Ok(f) => (f, None),
                Err(why) => (e, Some(why)),
            }
        }
    }
}

pub open spec fn settings_submitted(
    before: Db,
    after: Db,
    env: Dict<String>,
    fields: Dict<String>,
    now: Seq<char>,
    r: CommandResult,
) -> bool {
    let (d, fault) = all_saved(before@, fields, now, setting_list().len() as int);
    after@ == d && (match fault {
        Some(e) => is_settings_page(r, after, env, ""@, e),
        None => r.leads("/settings"@, seq![("msg"@, "Settings saved."@)]),
    })
}

/// A refused setting ends the form.
proof fn lemma_refused(d: DbView, fields: Dict<String>, now: Seq<char>, n: int, all: int)
    requires
        0 <= n <= all,
        all_saved(d, fields, now, n).1 is Some,
    ensures
        all_saved(d, fields, now, all) == all_saved(d, fields, now, n),
    decreases all - n,
{
    if n < all {
        lemma_refused(d, fields, now, n, all - 1);
    }
}

pub fn submit_settings(db: &mut Db, env: &Dict<String>, fields: &Dict<String>, now: &str) -> (r:
    CommandResult)
    ensures
        settings_submitted(*old(db), *final(db), *env, *fields, now@, r),
{
    let list = settings();
    let ghost start = db@;
    let mut i: usize = 0;
    while i < list.len()
        invariant
            i <= list@.len(),
            views_of(list@) == setting_list(),
            start == old(db)@,
            all_saved(start, *fields, now@, i as int) == (db@, None::<Seq<char>>),
        decreases list@.len() - i,
    {
        assert(views_of(list@)[i as int] == list@[i as int]@);
        let s = &list[i];
        let switch = if let Kind::Bool = &s.kind {
            true
        } else {
            false
        };
        let raw = if switch {
            if fields.contains_key(s.key) {
                "1"
            } else {
                "0"
            }
        } else {
            get_str(fields, s.key)
        };
        if let Err(e) = save(db, s.key, raw, now) {
            proof {
                lemma_refused(start, *fields, now@, i + 1, setting_list().len() as int);
            }
            return page_settings(db, env, "", e.as_str());
        }
        i = i + 1;
    }
    assert(setting_list().len() == list@.len());
    go_with("/settings", "msg", "Settings saved.")
}

/// Taking back the first `n` settings.
pub open spec fn all_cleared(d: DbView, n: int) -> DbView
    decreases n,
{
    if n <= 0 {
        d
    } else {
        setting_deleted(all_cleared(d, n - 1), setting_list()[n - 1].key)
    }
}

pub open spec fn settings_cleared(before: Db, after: Db, r: CommandResult) -> bool {
    after@ == all_cleared(before@, setting_list().len() as int) && r.leads(
        "/settings"@,
        seq![("msg"@, "All overrides cleared."@)],
    )
}

pub fn submit_settings_reset(db: &mut Db) -> (r: CommandResult)
    ensures
        settings_cleared(*old(db), *final(db), r),
{
    let list = settings();
    let ghost start = db@;
    let mut i: usize = 0;
    while i < list.len()
        invariant
            i <= list@.len(),
            views_of(list@) == setting_list(),
            db@ == all_cleared(start, i as int),
        decreases list@.len() - i,
    {
        assert(views_of(list@)[i as int] == list@[i as int]@);
        let _ = clear(db, list[i].key);
        i = i + 1;
    }
    assert(setting_list().len() == list@.len());
    go_with("/settings", "msg", "All overrides cleared.")
}

} // verus!
