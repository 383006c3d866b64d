//! What the pages show of batteries, readings and instruments.

use std::collections::HashMap;
use vstd::prelude::*;
use vstd::string::*;
use crate::chart::Chart;
use crate::config::{get, value_of};
use crate::db::Db;
use crate::dict::Dict;
use crate::health::{
    health_color, hue, instrument_name, instrument_text, last_of, leading_word, limit_of, or_zero,
    retention_of, summarise, value_or_zero, with_resistance, Summary,
};
use crate::json::{flag_of, json_flag};
use crate::order::sorted;
use crate::reads::{are_instruments, is_instrument, modes_of, readings, ByName};
use crate::records::{fields_of, mode_fields};
use crate::rows::{
    clone_opt_text, Battery, Instrument, InstrumentRow, Measurement, Mode, SettingView,
};
use crate::text::{int_text, join, joined, push_int, trimmed, uppercased, views};

verus! {

// ── Names ───────────────────────────────────────────────────────────────

/// The names of some instruments by their numbers.
pub open spec fn names_in(rows: Seq<InstrumentRow>) -> Map<i64, String>
    decreases rows.len(),
{
    if rows.len() == 0 {
        Map::empty()
    } else {
        names_in(rows.drop_last()).insert(rows.last().id, rows.last().name)
    }
}

/// The names of all instruments.
pub open spec fn names_of(db: Db) -> Map<i64, String> {
    names_in(sorted(ByName, db.instruments@))
}

pub fn instrument_names(db: &Db) -> (r: HashMap<i64, String>)
    ensures
        r@ == names_of(*db),
{
    broadcast use vstd::std_specs::hash::group_hash_axioms;

    let mut out: HashMap<i64, String> = HashMap::new();
    let ghost rows = sorted(ByName, db.instruments@);
    if let Ok(list) = db.list_instruments() {
        let mut i: usize = 0;
        assert(out@ =~= names_in(rows.take(0)));
        while i < list.len()
            invariant
                i <= list@.len(),
                rows == sorted(ByName, db.instruments@),
                are_instruments(list@, db.instruments@, db.modes@),
                out@ == names_in(rows.take(i as int)),
            decreases list@.len() - i,
        {
            broadcast use vstd::std_specs::hash::group_hash_axioms;

            assert(is_instrument(list@[i as int], rows[i as int], db.modes@));
            assert(rows.take(i + 1).drop_last() =~= rows.take(i as int));
            out.insert(list[i].id, list[i].name.clone());
            i = i + 1;
        }
        assert(rows.take(i as int) =~= rows);
    }
    out
}

/// Names of procedures put beside some that are known.
pub open spec fn with_modes(known: Map<i64, String>, modes: Seq<Mode>) -> Map<i64, String>
    decreases modes.len(),
{
    if modes.len() == 0 {
        known
    } else {
        with_modes(known, modes.drop_last()).insert(modes.last().id, modes.last().name)
    }
}

pub open spec fn mode_names_in(rows: Seq<InstrumentRow>, modes: Seq<Mode>) -> Map<i64, String>
    decreases rows.len(),
{
    if rows.len() == 0 {
        Map::empty()
    } else {
        with_modes(mode_names_in(rows.drop_last(), modes), modes_of(modes, rows.last().id))
    }
}

/// The names of all procedures.
pub open spec fn mode_names_of(db: Db) -> Map<i64, String> {
    mode_names_in(sorted(ByName, db.instruments@), db.modes@)
}

pub fn mode_names(db: &Db) -> (r: HashMap<i64, String>)
    ensures
        r@ == mode_names_of(*db),
{
    broadcast use vstd::std_specs::hash::group_hash_axioms;

    let mut out: HashMap<i64, String> = HashMap::new();
    let ghost rows = sorted(ByName, db.instruments@);
    if let Ok(list) = db.list_instruments() {
        let mut i: usize = 0;
        assert(out@ =~= mode_names_in(rows.take(0), db.modes@));
        while i < list.len()
            invariant
                i <= list@.len(),
                rows == sorted(ByName, db.instruments@),
                are_instruments(list@, db.instruments@, db.modes@),
                out@ == mode_names_in(rows.take(i as int), db.modes@),
            decreases list@.len() - i,
        {
            broadcast use vstd::std_specs::hash::group_hash_axioms;

            let ghost known = out@;
            let instrument = &list[i];
            let ghost modes = instrument.modes@;
            assert(is_instrument(list@[i as int], rows[i as int], db.modes@));
            assert(rows.take(i + 1).drop_last() =~= rows.take(i as int));
            let mut j: usize = 0;
            assert(out@ =~= with_modes(known, modes.take(0)));
            while j < instrument.modes.len()
                invariant
                    j <= instrument.modes@.len(),
                    modes == instrument.modes@,
                    out@ == with_modes(known, modes.take(j as int)),
                decreases instrument.modes@.len() - j,
            {
                broadcast use vstd::std_specs::hash::group_hash_axioms;

                assert(modes.take(j + 1).drop_last() =~= modes.take(j as int));
                out.insert(instrument.modes[j].id, instrument.modes[j].name.clone());
                j = j + 1;
            }
            assert(modes.take(j as int) =~= modes);
            i = i + 1;
        }
        assert(rows.take(i as int) =~= rows);
    }
    out
}

// ── Limits ──────────────────────────────────────────────────────────────

/// The resistance limit that is set for a type of cell.
pub open spec fn limit_named(
    name: Seq<char>,
    settings: Seq<SettingView>,
    env: Dict<String>,
) -> Option<i64> {
    if name == "AAA"@ {
        Some(value_of(settings, env, "ir_limit_aaa"@).number())
    } else if name == "AA"@ {
        Some(value_of(settings, env, "ir_limit_aa"@).number())
    } else {
        None
    }
}

/// The limits hold what is set.
pub open spec fn are_limits(
    limits: Dict<i64>,
    settings: Seq<SettingView>,
    env: Dict<String>,
) -> bool {
    forall|k: Seq<char>| #[trigger] limits.spec_get(k) == limit_named(k, settings, env)
}

/// The resistance limit that is set for a cell, by its whole type or else by
/// the leading word of it.
pub open spec fn limit_set(
    cell_type: Seq<char>,
    settings: Seq<SettingView>,
    env: Dict<String>,
) -> Option<i64> {
    let written = uppercased(trimmed(cell_type));
    match limit_named(written, settings, env) {
        Some(v) => Some(v),
        None => limit_named(leading_word(written), settings, env),
    }
}

pub proof fn lemma_limit_set(
    cell_type: Seq<char>,
    limits: Dict<i64>,
    settings: Seq<SettingView>,
    env: Dict<String>,
)
    requires
        are_limits(limits, settings, env),
    ensures
        limit_of(cell_type, limits) == limit_set(cell_type, settings, env),
{
}

pub fn ir_limits(db: &Db, env: &Dict<String>) -> (r: Dict<i64>)
    ensures
        are_limits(r, db@.settings, *env),
{
    let mut limits: Dict<i64> = Dict::new();
    limits.insert("AA", get(db, env, "ir_limit_aa").as_i64());
    limits.insert("AAA", get(db, env, "ir_limit_aaa").as_i64());
    limits
}

// ── Batteries ───────────────────────────────────────────────────────────

/// A battery as it stands in the list.
#[derive(Debug)]
pub struct BatteryRow {
    pub id: i64,
    pub cell_type: String,
    pub nominal_mah: Option<i64>,
    pub brand: String,
    pub location: String,
    pub deleted_at: Option<String>,
    pub has_health_pct: bool,
    pub health_pct: i64,
    pub health_color: String,
    pub ir_over_limit: bool,
    pub health_title: String,
    pub will_hard_delete: bool,
}

/// Whether the latest resistance reaches the limit.
pub open spec fn over_limit(ms: Seq<Measurement>, limit: Option<i64>) -> bool {
    let found = with_resistance(ms);
    found.len() > 0 && (limit matches Some(l) && or_zero(found.last().ir_mohm) >= l)
}

/// The latest resistance.
pub open spec fn latest_resistance(ms: Seq<Measurement>) -> Option<i64> {
    match last_of(with_resistance(ms)) {
        Some(m) => m.ir_mohm,
        None => None,
    }
}

pub open spec fn color_of(retention: Option<i64>, health_limit: Option<i64>) -> Seq<char> {
    match retention {
        None => "#2a2f3d"@,
        Some(p) => "hsl("@ + int_text(hue(p, health_limit)) + ", 55%, 22%)"@,
    }
}

/// What there is to say of a cell's condition in a few words.
pub open spec fn title_parts(retention: Option<i64>, over: bool, resistance: Option<i64>) -> Seq<
    Seq<char>,
> {
    let health = match retention {
        Some(r) => seq!["Health: "@ + int_text(r as int) + "% of nominal"@],
        None => Seq::empty(),
    };
    if over {
        health.push(
            "\u{26a0} Resistance: "@ + int_text(or_zero(resistance) as int)
                + " m\u{3a9} (over limit)"@,
        )
    } else {
        health
    }
}

pub open spec fn row_title(retention: Option<i64>, over: bool, resistance: Option<i64>) -> Seq<char> {
    joined(title_parts(retention, over, resistance), " \u{b7} "@)
}

impl BatteryRow {
    /// The row shows the battery, with what its readings say of it.
    pub open spec fn shows(
        &self,
        battery: Battery,
        ms: Seq<Measurement>,
        limit: Option<i64>,
        health_limit: Option<i64>,
        highest_id: int,
    ) -> bool {
        let retention = retention_of(battery.nominal_mah, ms);
        let over = over_limit(ms, limit);
        &&& self.id == battery.id
        &&& self.cell_type@ == battery.cell_type@
        &&& self.nominal_mah == battery.nominal_mah
        &&& self.brand@ == battery.brand@
        &&& self.location@ == battery.location@
        &&& self.deleted_at == battery.deleted_at
        &&& self.has_health_pct == (retention is Some)
        &&& self.health_pct == or_zero(retention)
        &&& self.health_color@ == color_of(retention, health_limit)
        &&& self.ir_over_limit == over
        &&& self.health_title@ == row_title(retention, over, latest_resistance(ms))
        &&& self.will_hard_delete == (battery.id == highest_id && ms.len() == 0)
    }
}

fn health_title(retention: Option<i64>, over: bool, resistance: Option<i64>) -> (r: String)
    ensures
        r@ == row_title(retention, over, resistance),
{
    let mut parts: Vec<String> = Vec::new();
    if let Some(p) = retention {
        let mut m = "Health: ".to_string();
        push_int(&mut m, p as i128);
        m.append("% of nominal");
        parts.push(m);
    }
    if over {
        let mut m = "\u{26a0} Resistance: ".to_string();
        push_int(&mut m, value_or_zero(resistance) as i128);
        m.append(" m\u{3a9} (over limit)");
        parts.push(m);
    }
    assert(views(parts@) =~= title_parts(retention, over, resistance));
    join(&parts, " \u{b7} ")
}

/// A battery and its condition, as a row of the list. `highest_id` is the
/// highest number of any battery: only that one goes for good when it is
/// deleted.
pub fn battery_row(
    db: &Db,
    battery: &Battery,
    limits: &Dict<i64>,
    health_limit: Option<i64>,
    names: &HashMap<i64, String>,
    highest_id: i64,
) -> (r: BatteryRow)
    ensures
        r.shows(
            *battery,
            readings(db.measurements@, battery.id),
            limit_of(battery.cell_type@, *limits),
            health_limit,
            highest_id as int,
        ),
{
    let measurements = match db.measurements(battery.id) {
        Ok(v) => v,
        Err(_) => Vec::new(),
    };
    let summary = summarise(battery, &measurements, limits, health_limit, names);
    let resistance = match &summary.ir_latest {
        Some(m) => m.ir_mohm,
        None => None,
    };
    BatteryRow {
        id: battery.id,
        cell_type: battery.cell_type.clone(),
        nominal_mah: battery.nominal_mah,
        brand: battery.brand.clone(),
        location: battery.location.clone(),
        deleted_at: clone_opt_text(&battery.deleted_at),
        has_health_pct: summary.retention.is_some(),
        health_pct: value_or_zero(summary.retention),
        health_color: health_color(summary.retention, health_limit),
        ir_over_limit: summary.ir_over_limit,
        health_title: health_title(summary.retention, summary.ir_over_limit, resistance),
        will_hard_delete: battery.id == highest_id && measurements.len() == 0,
    }
}

// ── Condition ───────────────────────────────────────────────────────────

/// The condition of a battery as its page shows it.
#[derive(Debug)]
pub struct Condition {
    pub has_retention: bool,
    pub retention: i64,
    pub health_limit: Option<i64>,
    pub health_low: bool,
    pub ir_limit: Option<i64>,
    pub ir_over_limit: bool,
    pub ir_unchecked: bool,
    pub unavailable: String,
    pub latest: Option<Measurement>,
    pub setup: String,
    pub newer: Vec<Measurement>,
    pub ir_first: Option<Measurement>,
    pub ir_latest: Option<Measurement>,
    pub ir_latest_instrument_name: Option<String>,
    pub has_ir_change: bool,
    pub ir_change: i64,
    pub ir_change_abs: i64,
    pub chart: Option<Chart>,
}

/// How far a change goes, whichever way.
pub open spec fn size_of_change(change: Option<i64>) -> i64 {
    match change {
        Some(c) => if c == i64::MIN {
            i64::MAX
        } else if c < 0 {
            (-c) as i64
        } else {
            c
        },
        None => 0,
    }
}

impl Condition {
    /// The condition is that of a summary.
    pub open spec fn shows(&self, s: Summary, names: Map<i64, String>) -> bool {
        &&& self.has_retention == (s.retention is Some)
        &&& self.retention == or_zero(s.retention)
        &&& self.health_limit == s.health_limit
        &&& self.health_low == s.health_low
        &&& self.ir_limit == s.ir_limit
        &&& self.ir_over_limit == s.ir_over_limit
        &&& self.ir_unchecked == s.ir_unchecked
        &&& self.unavailable@ == s.unavailable@
        &&& self.latest == s.latest
        &&& self.setup@ == s.setup@
        &&& self.newer@ == s.newer@
        &&& self.ir_first == s.ir_first
        &&& self.ir_latest == s.ir_latest
        &&& crate::rows::opt_text(self.ir_latest_instrument_name) == (match s.ir_latest {
            Some(m) => Some(instrument_text(m.instrument_id, names)),
            None => None,
        })
        &&& self.has_ir_change == (s.ir_change is Some)
        &&& self.ir_change == or_zero(s.ir_change)
        &&& self.ir_change_abs == size_of_change(s.ir_change)
        &&& self.chart == s.chart
    }

    /// The condition is that of a battery with these readings.
    pub open spec fn describes(
        &self,
        battery: Battery,
        ms: Seq<Measurement>,
        limits: Dict<i64>,
        health_limit: Option<i64>,
        names: Map<i64, String>,
    ) -> bool {
        exists|s: Summary| #[trigger]
            s.describes(battery, ms, limits, health_limit, names) && self.shows(s, names)
    }
}

pub fn condition_view(
    battery: &Battery,
    measurements: &Vec<Measurement>,
    limits: &Dict<i64>,
    health_limit: Option<i64>,
    names: &HashMap<i64, String>,
) -> (r: Condition)
    ensures
        r.describes(*battery, measurements@, *limits, health_limit, names@),
{
    let s = summarise(battery, measurements, limits, health_limit, names);
    let ghost whole = s;
    let name = match &s.ir_latest {
        Some(m) => Some(instrument_name(m.instrument_id, names)),
        None => None,
    };
    let size: i64 = match s.ir_change {
        Some(c) => if c == i64::MIN {
            i64::MAX
        } else if c < 0 {
            0 - c
        } else {
            c
        },
        None => 0,
    };
    let r = Condition {
        has_retention: s.retention.is_some(),
        retention: value_or_zero(s.retention),
        health_limit: s.health_limit,
        health_low: s.health_low,
        ir_limit: s.ir_limit,
        ir_over_limit: s.ir_over_limit,
        ir_unchecked: s.ir_unchecked,
        unavailable: s.unavailable,
        latest: s.latest,
        setup: s.setup,
        newer: s.newer,
        ir_first: s.ir_first,
        ir_latest: s.ir_latest,
        ir_latest_instrument_name: name,
        has_ir_change: s.ir_change.is_some(),
        ir_change: value_or_zero(s.ir_change),
        ir_change_abs: size,
        chart: s.chart,
    };
    assert(whole.describes(*battery, measurements@, *limits, health_limit, names@) && r.shows(
        whole,
        names@,
    ));
    r
}

// ── Readings ────────────────────────────────────────────────────────────

/// A reading as a battery's page shows it, with its instrument and procedure
/// by name.
#[derive(Debug)]
pub struct ReadingRow {
    pub id: i64,
    pub measured_at: String,
    pub kind: String,
    pub capacity_mah: Option<i64>,
    pub ir_mohm: Option<i64>,
    pub notes: String,
    pub instrument_id: Option<i64>,
    pub mode_id: Option<i64>,
    pub discharge_ma: Option<i64>,
    pub charge_ma: Option<i64>,
    pub instrument_name: Option<String>,
    pub mode_name: Option<String>,
    pub has_protocol: bool,
}

/// A name by its number, or what to say where it is gone.
pub open spec fn name_or(
    names: Map<i64, String>,
    id: Option<i64>,
    gone: Seq<char>,
) -> Option<Seq<char>> {
    match id {
        Some(i) => if names.dom().contains(i) {
            Some(names[i]@)
        } else {
            Some(gone)
        },
        None => None,
    }
}

fn find_name(names: &HashMap<i64, String>, id: Option<i64>, gone: &str) -> (r: Option<String>)
    ensures
        crate::rows::opt_text(r) == name_or(names@, id, gone@),
{
    broadcast use vstd::std_specs::hash::group_hash_axioms;

    match id {
        Some(i) => match names.get(&i) {
            Some(s) => Some(s.clone()),
            None => Some(gone.to_string()),
        },
        None => None,
    }
}

impl ReadingRow {
    pub open spec fn shows(
        &self,
        m: Measurement,
        names: Map<i64, String>,
        modes: Map<i64, String>,
    ) -> bool {
        &&& self.id == m.id
        &&& self.measured_at@ == m.measured_at@
        &&& self.kind@ == m.kind@
        &&& self.capacity_mah == m.capacity_mah
        &&& self.ir_mohm == m.ir_mohm
        &&& self.notes@ == m.notes@
        &&& self.instrument_id == m.instrument_id
        &&& self.mode_id == m.mode_id
        &&& self.discharge_ma == m.discharge_ma
        &&& self.charge_ma == m.charge_ma
        &&& crate::rows::opt_text(self.instrument_name) == name_or(
            names,
            m.instrument_id,
            "a deleted instrument"@,
        )
        &&& crate::rows::opt_text(self.mode_name) == name_or(
            modes,
            m.mode_id,
            "a deleted procedure"@,
        )
        &&& self.has_protocol == (m.mode_id matches Some(i) && modes.dom().contains(i))
    }
}

pub fn reading_row(m: &Measurement, names: &HashMap<i64, String>, modes: &HashMap<i64, String>) -> (r:
    ReadingRow)
    ensures
        r.shows(*m, names@, modes@),
{
    broadcast use vstd::std_specs::hash::group_hash_axioms;

    let known = match m.mode_id {
        Some(i) => modes.contains_key(&i),
        None => false,
    };
    ReadingRow {
        id: m.id,
        measured_at: m.measured_at.clone(),
        kind: m.kind.clone(),
        capacity_mah: m.capacity_mah,
        ir_mohm: m.ir_mohm,
        notes: m.notes.clone(),
        instrument_id: m.instrument_id,
        mode_id: m.mode_id,
        discharge_ma: m.discharge_ma,
        charge_ma: m.charge_ma,
        instrument_name: find_name(names, m.instrument_id, "a deleted instrument"),
        mode_name: find_name(modes, m.mode_id, "a deleted procedure"),
        has_protocol: known,
    }
}

// ── Procedures ──────────────────────────────────────────────────────────

/// Whether a form shows a field, and whether it asks for it.
#[derive(Debug, Clone, Copy, PartialEq, Eq, Structural)]
pub struct FieldFlag {
    pub visible: bool,
    pub required: bool,
}

/// What the field rules of a procedure say of a field: shown and not asked for,
/// unless they say otherwise.
pub open spec fn flags_in(fields: Seq<char>, key: Seq<char>) -> FieldFlag {
    FieldFlag {
        visible: json_flag(fields, key, "visible"@) != Some(false),
        required: json_flag(fields, key, "required"@) == Some(true),
    }
}

fn field_flag(fields: &str, key: &str) -> (r: FieldFlag)
    ensures
        r == flags_in(fields@, key@),
{
    flag_or_usual(flag_of(fields, key, "visible"), flag_of(fields, key, "required"))
}

/// A field is shown and not asked for, unless its flags say otherwise.
pub fn flag_or_usual(visible: Option<bool>, required: Option<bool>) -> (r: FieldFlag)
    ensures
        r.visible == (visible != Some(false)),
        r.required == (required == Some(true)),
{
    FieldFlag {
        visible: match visible {
            Some(b) => b,
            None => true,
        },
        required: match required {
            Some(b) => b,
            None => false,
        },
    }
}

/// The flags of every field that a reading can have.
#[derive(Debug, Clone, Copy, PartialEq, Eq, Structural)]
pub struct FieldFlags {
    pub capacity_mah: FieldFlag,
    pub ir_mohm: FieldFlag,
    pub discharge_ma: FieldFlag,
    pub charge_ma: FieldFlag,
    pub notes: FieldFlag,
}

pub open spec fn all_flags_in(fields: Seq<char>) -> FieldFlags {
    FieldFlags {
        capacity_mah: flags_in(fields, "capacity_mah"@),
        ir_mohm: flags_in(fields, "ir_mohm"@),
        discharge_ma: flags_in(fields, "discharge_ma"@),
        charge_ma: flags_in(fields, "charge_ma"@),
        notes: flags_in(fields, "notes"@),
    }
}

/// A procedure as it can be edited.
#[derive(Debug)]
pub struct EditableMode {
    pub id: i64,
    pub name: String,
    pub kind: String,
    pub details: String,
    pub fields: FieldFlags,
}

impl EditableMode {
    pub open spec fn shows(&self, m: Mode) -> bool {
        &&& self.id == m.id
        &&& self.name@ == m.name@
        &&& self.kind@ == m.kind@
        &&& self.details@ == m.details@
        &&& self.fields == all_flags_in(fields_of(m.fields@, m.kind@))
    }
}

pub fn editable_mode(m: &Mode) -> (r: EditableMode)
    ensures
        r.shows(*m),
{
    let text = mode_fields(m);
    let fields = text.as_str();
    EditableMode {
        id: m.id,
        name: m.name.clone(),
        kind: m.kind.clone(),
        details: m.details.clone(),
        fields: FieldFlags {
            capacity_mah: field_flag(fields, "capacity_mah"),
            ir_mohm: field_flag(fields, "ir_mohm"),
            discharge_ma: field_flag(fields, "discharge_ma"),
            charge_ma: field_flag(fields, "charge_ma"),
            notes: field_flag(fields, "notes"),
        },
    }
}

/// An instrument whose procedures can be edited.
#[derive(Debug)]
pub struct EditableInstrument {
    pub id: i64,
    pub name: String,
    pub slots: i64,
    pub modes: Vec<EditableMode>,
}

impl EditableInstrument {
    /// Whether this is the instrument with these procedures.
    pub open spec fn has(&self, id: i64, name: Seq<char>, slots: i64, own: Seq<Mode>) -> bool {
        &&& self.id == id
        &&& self.name@ == name
        &&& self.slots == slots
        &&& self.modes@.len() == own.len()
        &&& forall|i: int| 0 <= i < own.len() ==> (#[trigger] self.modes@[i]).shows(own[i])
    }

    pub open spec fn shows(&self, row: InstrumentRow, modes: Seq<Mode>) -> bool {
        self.has(row.id, row.name@, row.slots, modes_of(modes, row.id))
    }
}

pub fn editable_instrument(i: &Instrument) -> (r: EditableInstrument)
    ensures
        r.has(i.id, i.name@, i.slots, i.modes@),
{
    let mut modes: Vec<EditableMode> = Vec::new();
    let mut k: usize = 0;
    while k < i.modes.len()
        invariant
            k <= i.modes@.len(),
            modes@.len() == k,
            forall|j: int| 0 <= j < k ==> (#[trigger] modes@[j]).shows(i.modes@[j]),
        decreases i.modes@.len() - k,
    {
        modes.push(editable_mode(&i.modes[k]));
        k = k + 1;
    }
    EditableInstrument { id: i.id, name: i.name.clone(), slots: i.slots, modes }
}

/// A procedure as it can be chosen.
#[derive(Debug)]
pub struct ModeChoice {
    pub id: i64,
    pub name: String,
    pub kind: String,
    pub fields: String,
}

/// An instrument as it can be chosen, with its procedures.
#[derive(Debug)]
pub struct InstrumentChoice {
    pub id: i64,
    pub name: String,
    pub slots: i64,
    pub modes: Vec<ModeChoice>,
}

impl ModeChoice {
    pub open spec fn shows(&self, m: Mode) -> bool {
        &&& self.id == m.id
        &&& self.name@ == m.name@
        &&& self.kind@ == m.kind@
        &&& self.fields@ == m.fields@
    }
}

impl InstrumentChoice {
    /// Whether this is the instrument with these procedures.
    pub open spec fn has(&self, id: i64, name: Seq<char>, slots: i64, own: Seq<Mode>) -> bool {
        &&& self.id == id
        &&& self.name@ == name
        &&& self.slots == slots
        &&& self.modes@.len() == own.len()
        &&& forall|i: int| 0 <= i < own.len() ==> (#[trigger] self.modes@[i]).shows(own[i])
    }

    pub open spec fn shows(&self, row: InstrumentRow, modes: Seq<Mode>) -> bool {
        self.has(row.id, row.name@, row.slots, modes_of(modes, row.id))
    }
}

pub fn instrument_with_modes(i: &Instrument) -> (r: InstrumentChoice)
    ensures
        r.has(i.id, i.name@, i.slots, i.modes@),
{
    let mut modes: Vec<ModeChoice> = Vec::new();
    let mut k: usize = 0;
    while k < i.modes.len()
        invariant
            k <= i.modes@.len(),
            modes@.len() == k,
            forall|j: int| 0 <= j < k ==> (#[trigger] modes@[j]).shows(i.modes@[j]),
        decreases i.modes@.len() - k,
    {
        let m = &i.modes[k];
        modes.push(
            ModeChoice {
                id: m.id,
                name: m.name.clone(),
                kind: m.kind.clone(),
                fields: m.fields.clone(),
            },
        );
        k = k + 1;
    }
    InstrumentChoice { id: i.id, name: i.name.clone(), slots: i.slots, modes }
}

/// The instruments that have a procedure.
pub open spec fn usable(rows: Seq<InstrumentRow>, modes: Seq<Mode>) -> Seq<InstrumentRow>
    decreases rows.len(),
{
    if rows.len() == 0 {
        rows
    } else if modes_of(modes, rows.last().id).len() == 0 {
        usable(rows.drop_last(), modes)
    } else {
        usable(rows.drop_last(), modes).push(rows.last())
    }
}

/// The choices are the instruments that have a procedure, by name.
pub open spec fn are_choices(v: Seq<InstrumentChoice>, db: Db) -> bool {
    let rows = usable(sorted(ByName, db.instruments@), db.modes@);
    v.len() == rows.len() && forall|i: int|
        0 <= i < v.len() ==> (#[trigger] v[i]).shows(rows[i], db.modes@)
}

pub fn instrument_choices(db: &Db) -> (r: Vec<InstrumentChoice>)
    ensures
        are_choices(r@, *db),
{
    let mut out: Vec<InstrumentChoice> = Vec::new();
    let ghost rows = sorted(ByName, db.instruments@);
    if let Ok(list) = db.list_instruments() {
        let mut i: usize = 0;
        assert(usable(rows.take(0), db.modes@).len() == 0);
        while i < list.len()
            invariant
                i <= list@.len(),
                rows == sorted(ByName, db.instruments@),
                are_instruments(list@, db.instruments@, db.modes@),
                out@.len() == usable(rows.take(i as int), db.modes@).len(),
                forall|j: int|
                    0 <= j < out@.len() ==> (#[trigger] out@[j]).shows(
                        usable(rows.take(i as int), db.modes@)[j],
                        db.modes@,
                    ),
            decreases list@.len() - i,
        {
            assert(is_instrument(list@[i as int], rows[i as int], db.modes@));
            assert(rows.take(i + 1).drop_last() =~= rows.take(i as int));
            if list[i].modes.len() > 0 {
                out.push(instrument_with_modes(&list[i]));
            }
            i = i + 1;
        }
        assert(rows.take(i as int) =~= rows);
    }
    out
}

/// The instruments as they can be edited, by name.
pub open spec fn are_editable(v: Seq<EditableInstrument>, db: Db) -> bool {
    let rows = sorted(ByName, db.instruments@);
    v.len() == rows.len() && forall|i: int|
        0 <= i < v.len() ==> (#[trigger] v[i]).shows(rows[i], db.modes@)
}

pub fn editable_instruments(db: &Db) -> (r: Vec<EditableInstrument>)
    ensures
        are_editable(r@, *db),
{
    let mut out: Vec<EditableInstrument> = Vec::new();
    let ghost rows = sorted(ByName, db.instruments@);
    if let Ok(list) = db.list_instruments() {
        let mut i: usize = 0;
        while i < list.len()
            invariant
                i <= list@.len(),
                rows == sorted(ByName, db.instruments@),
                are_instruments(list@, db.instruments@, db.modes@),
                out@.len() == i,
                forall|j: int| 0 <= j < i ==> (#[trigger] out@[j]).shows(rows[j], db.modes@),
            decreases list@.len() - i,
        {
            assert(is_instrument(list@[i as int], rows[i as int], db.modes@));
            out.push(editable_instrument(&list[i]));
            i = i + 1;
        }
    }
    out
}

} // verus!
