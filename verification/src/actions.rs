//! What the forms of one battery do.

use vstd::prelude::*;
use vstd::string::*;
use crate::config::saved;
use crate::db::{Db, DbView};
use crate::dict::Dict;
use crate::helpers::{
    clean_reading, field, get_str, id_list, id_list_text, local_or, reading_fault, safe_path,
    unsigned, unsigned_number, whole_number,
};
use crate::pages::{
    is_measure_again_page, page_detail_with_measure_error, pool_location, pool_of, redirect,
    CommandResult,
};
use crate::links::str_pair_views;
use crate::records::{measured, reading_deleted, ReadingView};
use crate::sets::{entry_deleted, match_deleted, match_returned, moved_with_set};
use crate::text::{
    int_text, pad3, pad3_text, parse_i64, parsed_int, push_int, same, trimmed,
};
use crate::writes::{purged, reset_record, restored, soft_deleted, updated};

verus! {

// ── Redirects ───────────────────────────────────────────────────────────

/// A redirect that adds nothing to the path.
pub fn go(path: &str) -> (r: CommandResult)
    ensures
        r.leads(path@, Seq::empty()),
{
    let pairs: Vec<(&str, &str)> = Vec::new();
    assert(str_pair_views(pairs@) =~= Seq::empty());
    redirect(path, &pairs)
}

/// A redirect that adds one pair to the path.
pub fn go_with(path: &str, key: &str, value: &str) -> (r: CommandResult)
    ensures
        r.leads(path@, seq![(key@, value@)]),
{
    let pairs: Vec<(&str, &str)> = vec![(key, value)];
    assert(str_pair_views(pairs@) =~= seq![(key@, value@)]);
    redirect(path, &pairs)
}

/// A redirect that adds two pairs to the path.
pub fn go_with_two(path: &str, a: &str, av: &str, b: &str, bv: &str) -> (r: CommandResult)
    ensures
        r.leads(path@, seq![(a@, av@), (b@, bv@)]),
{
    let pairs: Vec<(&str, &str)> = vec![(a, av), (b, bv)];
    assert(str_pair_views(pairs@) =~= seq![(a@, av@), (b@, bv@)]);
    redirect(path, &pairs)
}

/// The path of a battery's page.
pub open spec fn battery_path(id: i64) -> Seq<char> {
    "/b/"@ + int_text(id as int)
}

pub fn path_of(id: i64) -> (r: String)
    ensures
        r@ == battery_path(id),
{
    let mut m = "/b/".to_string();
    push_int(&mut m, id as i128);
    m
}

/// A battery by its label, with something said of it.
pub open spec fn said_of(id: i64, what: Seq<char>) -> Seq<char> {
    "Battery "@ + pad3_text(id as int) + what
}

fn say_of(id: i64, what: &str) -> (r: String)
    ensures
        r@ == said_of(id, what@),
{
    let mut m = "Battery ".to_string();
    m.append(pad3(id).as_str());
    m.append(what);
    m
}

/// Where a form says to go next.
pub open spec fn next_of(fields: Dict<String>) -> Seq<char> {
    local_or(field(fields, "next"@), "/"@)
}

pub fn next_path(fields: &Dict<String>) -> (r: String)
    ensures
        r@ == next_of(*fields),
{
    safe_path(get_str(fields, "next"), "/")
}

// ── The layout of the list ──────────────────────────────────────────────

/// Choosing a table or a grid for the list.
pub open spec fn view_chosen(
    before: Db,
    after: Db,
    fields: Dict<String>,
    now: Seq<char>,
    r: CommandResult,
) -> bool {
    let view = field(fields, "view"@);
    &&& after@ == (if view == "table"@ || view == "grid"@ {
        match saved(before@, "list_view"@, view, now) {
            Ok(d) => d,
            Err(_) => before@,
        }
    } else {
        before@
    })
    &&& r.leads(next_of(fields), Seq::empty())
}

pub fn submit_view(db: &mut Db, fields: &Dict<String>, now: &str) -> (r: CommandResult)
    ensures
        view_chosen(*old(db), *final(db), *fields, now@, r),
{
    let view = get_str(fields, "view");
    if same(view, "table") || same(view, "grid") {
        let _ = crate::config::save(db, "list_view", view, now);
    }
    go(next_path(fields).as_str())
}

// ── Location ────────────────────────────────────────────────────────────

/// Moving a battery from its page: what goes with it is named.
pub open spec fn location_chosen(
    before: Db,
    after: Db,
    env: Dict<String>,
    id: Seq<char>,
    fields: Dict<String>,
    now: Seq<char>,
    r: CommandResult,
) -> bool {
    match parsed_int(id) {
        None => after == before && r.leads("/"@, Seq::empty()),
        Some(id) => match moved_with_set(
            before@,
            id,
            field(fields, "location"@),
            pool_of(before, env),
            now,
        ) {
            Ok((d, (Some(_), also))) => after@ == d && r.leads(
                battery_path(id),
                seq![
                    (
                        "msg"@,
                        if also.len() == 0 {
                            "Location saved."@
                        } else {
                            "Location saved."@ + " Also returned from the same match: "@
                                + id_list_text(also) + "."@
                        },
                    ),
                ],
            ),
            Ok((d, (None, _))) => after@ == d && r.leads(
                battery_path(id),
                seq![("error"@, "Could not save the location."@)],
            ),
            Err(_) => after == before && r.leads(
                battery_path(id),
                seq![("error"@, "Could not save the location."@)],
            ),
        },
    }
}

pub fn submit_location(
    db: &mut Db,
    env: &Dict<String>,
    id: &str,
    fields: &Dict<String>,
    now: &str,
) -> (r: CommandResult)
    ensures
        location_chosen(*old(db), *final(db), *env, id@, *fields, now@, r),
{
    let id = match parse_i64(id) {
        Some(id) => id,
        None => return go("/"),
    };
    let pool = pool_location(db, env);
    let path = path_of(id);
    match db.set_location_checked(id, get_str(fields, "location"), pool.as_str(), now) {
        Ok((Some(_), also)) => {
            let mut msg = "Location saved.".to_string();
            if also.len() > 0 {
                msg.append(" Also returned from the same match: ");
                msg.append(id_list(&also).as_str());
                msg.append(".");
            }
            go_with(path.as_str(), "msg", msg.as_str())
        },
        _ => go_with(path.as_str(), "error", "Could not save the location."),
    }
}

// ── The record ──────────────────────────────────────────────────────────

pub open spec fn details_edited(
    before: Db,
    after: Db,
    id: Seq<char>,
    fields: Dict<String>,
    now: Seq<char>,
    r: CommandResult,
) -> bool {
    match parsed_int(id) {
        None => after == before && r.leads("/"@, Seq::empty()),
        Some(id) => after@ == updated(
            before@,
            id,
            Some(field(fields, "type"@)),
            Some(parsed_int(trimmed(field(fields, "nominal_mah"@)))),
            Some(field(fields, "brand"@)),
            Some(field(fields, "notes"@)),
            now,
        ).0 && r.leads(
            battery_path(id),
            seq![("tab"@, "maintenance"@), ("msg"@, "Details saved."@)],
        ),
    }
}

pub fn submit_edit(db: &mut Db, id: &str, fields: &Dict<String>, now: &str) -> (r: CommandResult)
    ensures
        details_edited(*old(db), *final(db), id@, *fields, now@, r),
{
    let id = match parse_i64(id) {
        Some(id) => id,
        None => return go("/"),
    };
    let nominal = whole_number(get_str(fields, "nominal_mah"));
    let _ = db.update(
        id,
        Some(get_str(fields, "type")),
        Some(nominal),
        Some(get_str(fields, "brand")),
        Some(get_str(fields, "notes")),
        now,
    );
    go_with_two(path_of(id).as_str(), "tab", "maintenance", "msg", "Details saved.")
}

pub open spec fn battery_deleted(
    before: Db,
    after: Db,
    id: Seq<char>,
    fields: Dict<String>,
    now: Seq<char>,
    r: CommandResult,
) -> bool {
    match parsed_int(id) {
        None => after == before && r.leads("/"@, Seq::empty()),
        Some(id) => after@ == soft_deleted(before@, id, now).0 && r.leads(
            next_of(fields),
            seq![("msg"@, said_of(id, " deleted."@))],
        ),
    }
}

pub fn submit_delete(db: &mut Db, id: &str, fields: &Dict<String>, now: &str) -> (r: CommandResult)
    ensures
        battery_deleted(*old(db), *final(db), id@, *fields, now@, r),
{
    let id = match parse_i64(id) {
        Some(id) => id,
        None => return go("/"),
    };
    let _ = db.soft_delete(id, now);
    go_with(next_path(fields).as_str(), "msg", say_of(id, " deleted.").as_str())
}

pub open spec fn battery_purged(
    before: Db,
    after: Db,
    id: Seq<char>,
    fields: Dict<String>,
    r: CommandResult,
) -> bool {
    match parsed_int(id) {
        None => after == before && r.leads("/"@, Seq::empty()),
        Some(id) => match purged(before@, id) {
            Ok(d) => after@ == d && r.leads(
                next_of(fields),
                seq![("msg"@, said_of(id, " permanently deleted."@))],
            ),
            Err(e) => after == before && r.leads(
                battery_path(id),
                seq![("tab"@, "maintenance"@), ("error"@, e)],
            ),
        },
    }
}

pub fn submit_purge(db: &mut Db, id: &str, fields: &Dict<String>) -> (r: CommandResult)
    ensures
        battery_purged(*old(db), *final(db), id@, *fields, r),
{
    let id = match parse_i64(id) {
        Some(id) => id,
        None => return go("/"),
    };
    match db.purge(id) {
        Ok(()) => go_with(
            next_path(fields).as_str(),
            "msg",
            say_of(id, " permanently deleted.").as_str(),
        ),
        Err(e) => go_with_two(
            path_of(id).as_str(),
            "tab",
            "maintenance",
            "error",
            e.as_str(),
        ),
    }
}

pub open spec fn battery_restored(
    before: Db,
    after: Db,
    id: Seq<char>,
    fields: Dict<String>,
    now: Seq<char>,
    r: CommandResult,
) -> bool {
    match parsed_int(id) {
        None => after == before && r.leads("/"@, Seq::empty()),
        Some(id) => after@ == restored(before@, id, now).0 && r.leads(
            next_of(fields),
            seq![("msg"@, said_of(id, " restored."@))],
        ),
    }
}

pub fn submit_restore(db: &mut Db, id: &str, fields: &Dict<String>, now: &str) -> (r: CommandResult)
    ensures
        battery_restored(*old(db), *final(db), id@, *fields, now@, r),
{
    let id = match parse_i64(id) {
        Some(id) => id,
        None => return go("/"),
    };
    let _ = db.restore(id, now);
    go_with(next_path(fields).as_str(), "msg", say_of(id, " restored.").as_str())
}

pub open spec fn battery_reset(
    before: Db,
    after: Db,
    id: Seq<char>,
    fields: Dict<String>,
    now: Seq<char>,
    r: CommandResult,
) -> bool {
    match parsed_int(id) {
        None => after == before && r.leads("/"@, Seq::empty()),
        Some(id) => match reset_record(before@, id, now) {
            Ok((d, _)) => after@ == d && r.leads(
                next_of(fields),
                seq![("msg"@, said_of(id, " cleared."@))],
            ),
            Err(e) => after == before && r.leads(next_of(fields), seq![("error"@, e.text())]),
        },
    }
}

pub fn submit_reset(db: &mut Db, id: &str, fields: &Dict<String>, now: &str) -> (r: CommandResult)
    ensures
        battery_reset(*old(db), *final(db), id@, *fields, now@, r),
{
    let id = match parse_i64(id) {
        Some(id) => id,
        None => return go("/"),
    };
    let next = next_path(fields);
    match db.reset(id, now) {
        Ok(_) => go_with(next.as_str(), "msg", say_of(id, " cleared.").as_str()),
        Err(e) => go_with(next.as_str(), "error", e.message().as_str()),
    }
}

// ── Readings ────────────────────────────────────────────────────────────

/// The four values of a reading, as they were typed.
pub struct Typed {
    pub capacity_mah: Option<i64>,
    pub ir_mohm: Option<i64>,
    pub discharge_ma: Option<i64>,
    pub charge_ma: Option<i64>,
}

/// The four values of a reading; the first that is no number above zero or
/// zero says so.
pub open spec fn values_typed(
    capacity: Seq<char>,
    ir: Seq<char>,
    discharge: Seq<char>,
    charge: Seq<char>,
) -> Result<Typed, Seq<char>> {
    match unsigned(capacity, "Capacity"@) {
        Err(e) => Err(e),
        Ok(capacity_mah) => match unsigned(ir, "Resistance"@) {
            Err(e) => Err(e),
            Ok(ir_mohm) => match unsigned(discharge, "Discharge current"@) {
                Err(e) => Err(e),
                Ok(discharge_ma) => match unsigned(charge, "Charge current"@) {
                    Err(e) => Err(e),
                    Ok(charge_ma) => Ok(Typed { capacity_mah, ir_mohm, discharge_ma, charge_ma }),
                },
            },
        },
    }
}

pub fn read_values(capacity: &str, ir: &str, discharge: &str, charge: &str) -> (r: Result<
    Typed,
    String,
>)
    ensures
        match r {
            Ok(t) => values_typed(capacity@, ir@, discharge@, charge@) == Ok::<Typed, Seq<char>>(t),
            Err(e) => values_typed(capacity@, ir@, discharge@, charge@) == Err::<Typed, Seq<char>>(
                e@,
            ),
        },
{
    let capacity_mah = match unsigned_number(capacity, "Capacity") {
        Ok(n) => n,
        Err(e) => return Err(e),
    };
    let ir_mohm = match unsigned_number(ir, "Resistance") {
        Ok(n) => n,
        Err(e) => return Err(e),
    };
    let discharge_ma = match unsigned_number(discharge, "Discharge current") {
        Ok(n) => n,
        Err(e) => return Err(e),
    };
    let charge_ma = match unsigned_number(charge, "Charge current") {
        Ok(n) => n,
        Err(e) => return Err(e),
    };
    Ok(Typed { capacity_mah, ir_mohm, discharge_ma, charge_ma })
}

/// The reading that was typed, or what is wrong with it.
pub open spec fn reading_typed(
    d: DbView,
    kind: Seq<char>,
    measured_at: Seq<char>,
    instrument_id: Option<i64>,
    mode_id: Option<i64>,
    values: Result<Typed, Seq<char>>,
    notes: Seq<char>,
) -> Result<ReadingView, Seq<char>> {
    match values {
        Err(e) => Err(e),
        Ok(v) => match reading_fault(
            d,
            kind,
            v.capacity_mah,
            v.ir_mohm,
            instrument_id,
            mode_id,
            v.discharge_ma,
            v.charge_ma,
        ) {
            Some(e) => Err(e),
            None => Ok(
                ReadingView {
                    kind,
                    measured_at,
                    capacity_mah: v.capacity_mah,
                    ir_mohm: v.ir_mohm,
                    instrument_id,
                    mode_id,
                    discharge_ma: v.discharge_ma,
                    charge_ma: v.charge_ma,
                    notes,
                },
            ),
        },
    }
}

/// The reading in the form of one battery.
pub open spec fn form_reading(d: DbView, fields: Dict<String>) -> Result<ReadingView, Seq<char>> {
    reading_typed(
        d,
        field(fields, "kind"@),
        field(fields, "measured_at"@),
        parsed_int(trimmed(field(fields, "instrument_id"@))),
        parsed_int(trimmed(field(fields, "mode_id"@))),
        values_typed(
            field(fields, "capacity_mah"@),
            field(fields, "ir_mohm"@),
            field(fields, "discharge_ma"@),
            field(fields, "charge_ma"@),
        ),
        field(fields, "notes"@),
    )
}

/// A reading from a battery's page: saved, or refused with everything that was
/// typed still there.
pub open spec fn reading_submitted(
    before: Db,
    after: Db,
    env: Dict<String>,
    id: Seq<char>,
    fields: Dict<String>,
    now: Seq<char>,
    today: Seq<char>,
    r: CommandResult,
) -> bool {
    match parsed_int(id) {
        None => after == before && r.leads("/"@, Seq::empty()),
        Some(id) => match form_reading(before@, fields) {
            Err(e) => after == before && is_measure_again_page(r, after, env, id, today, e, fields),
            Ok(reading) => match measured(before@, id, reading, now) {
                Ok((d, Some(_))) => after@ == d && r.leads(
                    battery_path(id),
                    seq![("msg"@, "Reading saved."@)],
                ),
                Ok((d, None)) => after@ == d && is_measure_again_page(
                    r,
                    after,
                    env,
                    id,
                    today,
                    "That battery no longer exists."@,
                    fields,
                ),
                Err(_) => after == before && is_measure_again_page(
                    r,
                    after,
                    env,
                    id,
                    today,
                    "That battery no longer exists."@,
                    fields,
                ),
            },
        },
    }
}

pub fn submit_measure(
    db: &mut Db,
    env: &Dict<String>,
    id: &str,
    fields: &Dict<String>,
    now: &str,
    today: &str,
) -> (r: CommandResult)
    ensures
        reading_submitted(*old(db), *final(db), *env, id@, *fields, now@, today@, r),
{
    let id = match parse_i64(id) {
        Some(id) => id,
        None => return go("/"),
    };
    let kind = get_str(fields, "kind");
    let instrument_id = whole_number(get_str(fields, "instrument_id"));
    let mode_id = whole_number(get_str(fields, "mode_id"));
    let v = match read_values(
        get_str(fields, "capacity_mah"),
        get_str(fields, "ir_mohm"),
        get_str(fields, "discharge_ma"),
        get_str(fields, "charge_ma"),
    ) {
        Ok(v) => v,
        Err(e) => return page_detail_with_measure_error(db, env, id, today, e.as_str(), fields),
    };
    if let Err(e) = clean_reading(
        db,
        kind,
        v.capacity_mah,
        v.ir_mohm,
        instrument_id,
        mode_id,
        v.discharge_ma,
        v.charge_ma,
    ) {
        return page_detail_with_measure_error(db, env, id, today, e.as_str(), fields);
    }
    match db.add_measurement(
        id,
        kind,
        get_str(fields, "measured_at"),
        v.capacity_mah,
        v.ir_mohm,
        instrument_id,
        mode_id,
        v.discharge_ma,
        v.charge_ma,
        get_str(fields, "notes"),
        now,
    ) {
        Ok(Some(_)) => go_with(path_of(id).as_str(), "msg", "Reading saved."),
        _ => page_detail_with_measure_error(
            db,
            env,
            id,
            today,
            "That battery no longer exists.",
            fields,
        ),
    }
}

/// Deleting a reading leads back to its battery.
pub open spec fn measurement_deleted(before: Db, after: Db, id: Seq<char>, r: CommandResult) -> bool {
    match parsed_int(id) {
        None => after == before && r.leads("/"@, Seq::empty()),
        Some(id) => after@ == reading_deleted(before@, id).0 && (match reading_deleted(
            before@,
            id,
        ).1 {
            Some(b) => r.leads(battery_path(b), seq![("msg"@, "Reading deleted."@)]),
            None => r.leads("/"@, Seq::empty()),
        }),
    }
}

pub fn submit_delete_measurement(db: &mut Db, id: &str) -> (r: CommandResult)
    ensures
        measurement_deleted(*old(db), *final(db), id@, r),
{
    let id = match parse_i64(id) {
        Some(id) => id,
        None => return go("/"),
    };
    match db.delete_measurement(id) {
        Ok(Some(b)) => go_with(path_of(b).as_str(), "msg", "Reading deleted."),
        _ => go("/"),
    }
}

/// Deleting a move leads back to its battery.
pub open spec fn location_entry_deleted(
    before: Db,
    after: Db,
    id: Seq<char>,
    r: CommandResult,
) -> bool {
    match parsed_int(id) {
        None => after == before && r.leads("/"@, Seq::empty()),
        Some(id) => after@ == entry_deleted(before@, id).0 && (match entry_deleted(before@, id).1 {
            Some(b) => r.leads(battery_path(b), seq![("msg"@, "Location entry deleted."@)]),
            None => r.leads("/"@, Seq::empty()),
        }),
    }
}

pub fn submit_delete_location_entry(db: &mut Db, id: &str) -> (r: CommandResult)
    ensures
        location_entry_deleted(*old(db), *final(db), id@, r),
{
    let id = match parse_i64(id) {
        Some(id) => id,
        None => return go("/"),
    };
    match db.delete_location_entry(id) {
        Ok(Some(b)) => go_with(path_of(b).as_str(), "msg", "Location entry deleted."),
        _ => go("/"),
    }
}

// ── The log of matches ──────────────────────────────────────────────────

pub open spec fn match_removed(before: Db, after: Db, id: Seq<char>, r: CommandResult) -> bool {
    match parsed_int(id) {
        None => after == before && r.leads("/match/log"@, Seq::empty()),
        Some(id) => after@ == match_deleted(before@, id).0 && r.leads(
            "/match/log"@,
            if match_deleted(before@, id).1 {
                seq![("msg"@, "Match deleted."@)]
            } else {
                seq![("error"@, "That match no longer exists."@)]
            },
        ),
    }
}

pub fn submit_delete_match(db: &mut Db, id: &str) -> (r: CommandResult)
    ensures
        match_removed(*old(db), *final(db), id@, r),
{
    let id = match parse_i64(id) {
        Some(id) => id,
        None => return go("/match/log"),
    };
    match db.delete_match(id) {
        Ok(true) => go_with("/match/log", "msg", "Match deleted."),
        _ => go_with("/match/log", "error", "That match no longer exists."),
    }
}

/// Returning a set: the batteries that were moved are named.
pub open spec fn match_brought_back(
    before: Db,
    after: Db,
    env: Dict<String>,
    id: Seq<char>,
    now: Seq<char>,
    r: CommandResult,
) -> bool {
    let pool = pool_of(before, env);
    match parsed_int(id) {
        None => after == before && r.leads("/match/log"@, Seq::empty()),
        Some(id) => match match_returned(before@, id, pool, now) {
            Ok((d, ids)) => after@ == d && r.leads(
                "/match/log"@,
                seq![
                    (
                        "msg"@,
                        if ids.len() == 0 {
                            "Match closed."@
                        } else {
                            "Returned "@ + id_list_text(ids) + " to "@ + pool + "."@
                        },
                    ),
                ],
            ),
            Err(_) => after == before && r.leads(
                "/match/log"@,
                seq![("error"@, "Could not return that match."@)],
            ),
        },
    }
}

pub fn submit_return_match(db: &mut Db, env: &Dict<String>, id: &str, now: &str) -> (r: CommandResult)
    ensures
        match_brought_back(*old(db), *final(db), *env, id@, now@, r),
{
    let id = match parse_i64(id) {
        Some(id) => id,
        None => return go("/match/log"),
    };
    let pool = pool_location(db, env);
    match db.return_match(id, pool.as_str(), now) {
        Ok(ids) => {
            if ids.len() == 0 {
                return go_with("/match/log", "msg", "Match closed.");
            }
            let mut m = "Returned ".to_string();
            m.append(id_list(&ids).as_str());
            m.append(" to ");
            m.append(pool.as_str());
            m.append(".");
            go_with("/match/log", "msg", m.as_str())
        },
        Err(_) => go_with("/match/log", "error", "Could not return that match."),
    }
}

} // verus!
