//! What the forms of the instruments do.

use vstd::prelude::*;
use vstd::string::*;
use crate::actions::{go, go_with};
use crate::db::Db;
use crate::dict::Dict;
use crate::helpers::{
    field, fields_to_value, get_str, parse_positive_int, positive, value_views, values_of,
};
use crate::json::{rule_views, FieldRule};
use crate::pages::{
    is_instruments_page, page_instruments, CommandResult, InstrumentForm,
};
use crate::records::{
    instrument_added, instrument_deleted, instrument_updated, mode_added, mode_deleted, mode_moved,
    mode_updated,
};
use crate::text::{int_text, parse_i64, parsed_int, push_int};
use crate::view::{FieldFlag, FieldFlags};

verus! {

/// How many slots were typed; one where it is no number above zero.
pub open spec fn slots_typed(fields: Dict<String>) -> i64 {
    match positive(field(fields, "slots"@)) {
        Some(n) => n,
        None => 1,
    }
}

fn read_slots(fields: &Dict<String>) -> (r: i64)
    ensures
        r == slots_typed(*fields),
{
    match parse_positive_int(get_str(fields, "slots")) {
        Some(n) => n,
        None => 1,
    }
}

/// The page of instruments with the form for a new one still open.
pub open spec fn is_add_again(
    r: CommandResult,
    db: Db,
    error: Seq<char>,
    fields: Dict<String>,
) -> bool {
    exists|form: InstrumentForm| #[trigger]
        is_instruments_page(r, db, ""@, ""@, form) && (
        form matches InstrumentForm::AddInstrument { error: e, values } && e@ == error
            && value_views(values@) == values_of(fields))
}

pub open spec fn instrument_submitted(
    before: Db,
    after: Db,
    fields: Dict<String>,
    now: Seq<char>,
    r: CommandResult,
) -> bool {
    match instrument_added(before@, field(fields, "name"@), slots_typed(fields), now) {
        Ok((d, _)) => after@ == d && r.leads(
            "/instruments"@,
            seq![("msg"@, "Instrument added."@)],
        ),
        Err(e) => after == before && is_add_again(r, after, e.text(), fields),
    }
}

pub fn submit_instrument_add(db: &mut Db, fields: &Dict<String>, now: &str) -> (r: CommandResult)
    ensures
        instrument_submitted(*old(db), *final(db), *fields, now@, r),
{
    match db.add_instrument(get_str(fields, "name"), read_slots(fields), now) {
        Ok(_) => go_with("/instruments", "msg", "Instrument added."),
        Err(e) => {
            let form = InstrumentForm::AddInstrument {
                error: e.message(),
                values: fields_to_value(fields),
            };
            page_instruments(db, "", "", form)
        },
    }
}

/// The page of instruments with the form of one still open.
pub open spec fn is_edit_again(
    r: CommandResult,
    db: Db,
    id: i64,
    error: Seq<char>,
    fields: Dict<String>,
) -> bool {
    exists|form: InstrumentForm| #[trigger]
        is_instruments_page(r, db, ""@, ""@, form) && (form matches InstrumentForm::EditInstrument {
            id: i,
            error: e,
            values,
        } && i == id && e@ == error && value_views(values@) == values_of(fields))
}

pub open spec fn instrument_edited(
    before: Db,
    after: Db,
    id: Seq<char>,
    fields: Dict<String>,
    now: Seq<char>,
    r: CommandResult,
) -> bool {
    match parsed_int(id) {
        None => after == before && r.leads("/instruments"@, Seq::empty()),
        Some(id) => match instrument_updated(
            before@,
            id,
            field(fields, "name"@),
            slots_typed(fields),
            now,
        ) {
            Ok((d, Some(_))) => after@ == d && r.leads(
                "/instruments"@,
                seq![("msg"@, "Instrument saved."@)],
            ),
            Ok((d, None)) => after@ == d && r.leads("/instruments"@, Seq::empty()),
            Err(e) => after == before && is_edit_again(r, after, id, e.text(), fields),
        },
    }
}

pub fn submit_instrument_edit(db: &mut Db, id: &str, fields: &Dict<String>, now: &str) -> (r:
    CommandResult)
    ensures
        instrument_edited(*old(db), *final(db), id@, *fields, now@, r),
{
    let id = match parse_i64(id) {
        Some(id) => id,
        None => return go("/instruments"),
    };
    match db.update_instrument(id, get_str(fields, "name"), read_slots(fields), now) {
        Ok(Some(_)) => go_with("/instruments", "msg", "Instrument saved."),
        Ok(None) => go("/instruments"),
        Err(e) => {
            let form = InstrumentForm::EditInstrument {
                id,
                error: e.message(),
                values: fields_to_value(fields),
            };
            page_instruments(db, "", "", form)
        },
    }
}

pub open spec fn instrument_removed(before: Db, after: Db, id: Seq<char>, r: CommandResult) -> bool {
    match parsed_int(id) {
        None => after == before && r.leads("/instruments"@, Seq::empty()),
        Some(id) => after@ == instrument_deleted(before@, id).0 && r.leads(
            "/instruments"@,
            seq![("msg"@, "Instrument deleted."@)],
        ),
    }
}

pub fn submit_instrument_delete(db: &mut Db, id: &str) -> (r: CommandResult)
    ensures
        instrument_removed(*old(db), *final(db), id@, r),
{
    let id = match parse_i64(id) {
        Some(id) => id,
        None => return go("/instruments"),
    };
    let _ = db.delete_instrument(id);
    go_with("/instruments", "msg", "Instrument deleted.")
}

// ── Procedures ──────────────────────────────────────────────────────────

/// What a form says of a field: its boxes are ticked or not.
pub open spec fn boxes(fields: Dict<String>, name: Seq<char>) -> FieldFlag {
    FieldFlag {
        visible: fields.spec_contains("field_"@ + name + "_visible"@),
        required: fields.spec_contains("field_"@ + name + "_required"@),
    }
}

fn field_pair(fields: &Dict<String>, name: &str) -> (r: FieldFlag)
    ensures
        r == boxes(*fields, name@),
{
    let mut visible = "field_".to_string();
    visible.append(name);
    visible.append("_visible");
    let mut required = "field_".to_string();
    required.append(name);
    required.append("_required");
    FieldFlag {
        visible: fields.contains_key(visible.as_str()),
        required: fields.contains_key(required.as_str()),
    }
}

pub open spec fn flags_typed(fields: Dict<String>) -> FieldFlags {
    FieldFlags {
        capacity_mah: boxes(fields, "capacity_mah"@),
        ir_mohm: boxes(fields, "ir_mohm"@),
        discharge_ma: boxes(fields, "discharge_ma"@),
        charge_ma: boxes(fields, "charge_ma"@),
        notes: boxes(fields, "notes"@),
    }
}

fn read_flags(fields: &Dict<String>) -> (r: FieldFlags)
    ensures
        r == flags_typed(*fields),
{
    FieldFlags {
        capacity_mah: field_pair(fields, "capacity_mah"),
        ir_mohm: field_pair(fields, "ir_mohm"),
        discharge_ma: field_pair(fields, "discharge_ma"),
        charge_ma: field_pair(fields, "charge_ma"),
        notes: field_pair(fields, "notes"),
    }
}

/// The flags as rules for each field.
pub open spec fn rules_of(f: FieldFlags) -> Seq<(Seq<char>, bool, bool)> {
    seq![
        ("capacity_mah"@, f.capacity_mah.visible, f.capacity_mah.required),
        ("ir_mohm"@, f.ir_mohm.visible, f.ir_mohm.required),
        ("discharge_ma"@, f.discharge_ma.visible, f.discharge_ma.required),
        ("charge_ma"@, f.charge_ma.visible, f.charge_ma.required),
        ("notes"@, f.notes.visible, f.notes.required),
    ]
}

fn rule(name: &str, f: FieldFlag) -> (r: FieldRule)
    ensures
        r.name@ == name@,
        r.visible == f.visible,
        r.required == f.required,
{
    FieldRule { name: name.to_string(), visible: f.visible, required: f.required }
}

fn rules_from(f: FieldFlags) -> (r: Vec<FieldRule>)
    ensures
        rule_views(r@) == rules_of(f),
{
    let r = vec![
        rule("capacity_mah", f.capacity_mah),
        rule("ir_mohm", f.ir_mohm),
        rule("discharge_ma", f.discharge_ma),
        rule("charge_ma", f.charge_ma),
        rule("notes", f.notes),
    ];
    assert(rule_views(r@) =~= rules_of(f));
    r
}

/// The page of instruments with the form for a new procedure still open.
pub open spec fn is_add_mode_again(
    r: CommandResult,
    db: Db,
    instrument: i64,
    error: Seq<char>,
    typed: Dict<String>,
) -> bool {
    exists|form: InstrumentForm| #[trigger]
        is_instruments_page(r, db, ""@, ""@, form) && (form matches InstrumentForm::AddMode {
            instrument_id,
            error: e,
            values,
            fields,
        } && instrument_id == instrument && e@ == error && value_views(values@) == values_of(typed)
            && fields == flags_typed(typed))
}

pub open spec fn mode_submitted(
    before: Db,
    after: Db,
    instrument: Seq<char>,
    fields: Dict<String>,
    now: Seq<char>,
    r: CommandResult,
) -> bool {
    match parsed_int(instrument) {
        None => after == before && r.leads("/instruments"@, Seq::empty()),
        Some(id) => match mode_added(
            before@,
            id,
            field(fields, "name"@),
            field(fields, "kind"@),
            field(fields, "details"@),
            Some(rules_of(flags_typed(fields))),
            now,
        ) {
            Ok((d, _)) => after@ == d && r.leads(
                "/instruments"@,
                seq![("msg"@, "Procedure added."@)],
            ),
            Err(e) => after == before && is_add_mode_again(r, after, id, e.text(), fields),
        },
    }
}

pub fn submit_mode_add(db: &mut Db, instrument: &str, fields: &Dict<String>, now: &str) -> (r:
    CommandResult)
    ensures
        mode_submitted(*old(db), *final(db), instrument@, *fields, now@, r),
{
    let id = match parse_i64(instrument) {
        Some(id) => id,
        None => return go("/instruments"),
    };
    let flags = read_flags(fields);
    let rules = rules_from(flags);
    match db.add_mode(
        id,
        get_str(fields, "name"),
        get_str(fields, "kind"),
        get_str(fields, "details"),
        Some(&rules),
        now,
    ) {
        Ok(_) => go_with("/instruments", "msg", "Procedure added."),
        Err(e) => {
            let form = InstrumentForm::AddMode {
                instrument_id: id,
                error: e.message(),
                values: fields_to_value(fields),
                fields: flags,
            };
            page_instruments(db, "", "", form)
        },
    }
}

/// The page of instruments with the form of a procedure still open.
pub open spec fn is_edit_mode_again(
    r: CommandResult,
    db: Db,
    mode: i64,
    instrument: i64,
    error: Seq<char>,
    typed: Dict<String>,
) -> bool {
    exists|form: InstrumentForm| #[trigger]
        is_instruments_page(r, db, ""@, ""@, form) && (form matches InstrumentForm::EditMode {
            id,
            instrument_id,
            error: e,
            values,
        } && id == mode && instrument_id == instrument && e@ == error && value_views(values@)
            == values_of(typed))
}

pub open spec fn or_none(id: Seq<char>) -> i64 {
    match parsed_int(id) {
        Some(n) => n,
        None => 0,
    }
}

pub open spec fn mode_edited(
    before: Db,
    after: Db,
    instrument: Seq<char>,
    mode: Seq<char>,
    fields: Dict<String>,
    now: Seq<char>,
    r: CommandResult,
) -> bool {
    match parsed_int(mode) {
        None => after == before && r.leads("/instruments"@, Seq::empty()),
        Some(id) => match mode_updated(
            before@,
            id,
            field(fields, "name"@),
            field(fields, "kind"@),
            field(fields, "details"@),
            Some(rules_of(flags_typed(fields))),
            now,
        ) {
            Ok((d, Some(_))) => after@ == d && r.leads(
                "/instruments"@,
                seq![("msg"@, "Procedure saved."@)],
            ),
            Ok((d, None)) => after@ == d && r.leads("/instruments"@, Seq::empty()),
            Err(e) => after == before && is_edit_mode_again(
                r,
                after,
                id,
                or_none(instrument),
                e.text(),
                fields,
            ),
        },
    }
}

pub fn submit_mode_edit(
    db: &mut Db,
    instrument: &str,
    mode: &str,
    fields: &Dict<String>,
    now: &str,
) -> (r: CommandResult)
    ensures
        mode_edited(*old(db), *final(db), instrument@, mode@, *fields, now@, r),
{
    let id = match parse_i64(mode) {
        Some(id) => id,
        None => return go("/instruments"),
    };
    let instrument_id: i64 = match parse_i64(instrument) {
        Some(n) => n,
        None => 0,
    };
    let rules = rules_from(read_flags(fields));
    match db.update_mode(
        id,
        get_str(fields, "name"),
        get_str(fields, "kind"),
        get_str(fields, "details"),
        Some(&rules),
        now,
    ) {
        Ok(Some(_)) => go_with("/instruments", "msg", "Procedure saved."),
        Ok(None) => go("/instruments"),
        Err(e) => {
            let form = InstrumentForm::EditMode {
                id,
                instrument_id,
                error: e.message(),
                values: fields_to_value(fields),
            };
            page_instruments(db, "", "", form)
        },
    }
}

pub open spec fn mode_removed(before: Db, after: Db, mode: Seq<char>, r: CommandResult) -> bool {
    match parsed_int(mode) {
        None => after == before && r.leads("/instruments"@, Seq::empty()),
        Some(id) => after@ == mode_deleted(before@, id).0 && r.leads(
            "/instruments"@,
            seq![("msg"@, "Procedure deleted."@)],
        ),
    }
}

pub fn submit_mode_delete(db: &mut Db, mode: &str) -> (r: CommandResult)
    ensures
        mode_removed(*old(db), *final(db), mode@, r),
{
    let id = match parse_i64(mode) {
        Some(id) => id,
        None => return go("/instruments"),
    };
    let _ = db.delete_mode(id);
    go_with("/instruments", "msg", "Procedure deleted.")
}

/// Moving a procedure leads back to it.
pub open spec fn mode_shifted(
    before: Db,
    after: Db,
    mode: Seq<char>,
    fields: Dict<String>,
    now: Seq<char>,
    r: CommandResult,
) -> bool {
    match parsed_int(mode) {
        None => after == before && r.leads("/instruments"@, Seq::empty()),
        Some(id) => after@ == (match mode_moved(before@, id, field(fields, "direction"@), now) {
            Ok((d, _)) => d,
            Err(_) => before@,
        }) && r.leads("/instruments#procedure-"@ + int_text(id as int), Seq::empty()),
    }
}

pub fn submit_mode_move(db: &mut Db, mode: &str, fields: &Dict<String>, now: &str) -> (r:
    CommandResult)
    ensures
        mode_shifted(*old(db), *final(db), mode@, *fields, now@, r),
{
    let id = match parse_i64(mode) {
        Some(id) => id,
        None => return go("/instruments"),
    };
    let _ = db.move_mode(id, get_str(fields, "direction"), now);
    let mut path = "/instruments#procedure-".to_string();
    push_int(&mut path, id as i128);
    go(path.as_str())
}

} // verus!
