//! Readings, the instruments they come from, and the settings.

use vstd::prelude::*;
use vstd::string::*;
use crate::db::{
    at, bought, find, present, lemma_kept_views, lemma_views, lemma_views_at, lemma_views_push,
    lemma_views_update, row, views_of, Db, DbError, DbErrorView, DbResult, DbView,
};
use crate::json::{
    default_fields, default_rules, json_again, json_rules, rule_views, rules_text, written_again,
    FieldRule,
};
use crate::reads::{instrument_row, modes_of};
use crate::rows::{
    Battery, BatteryView, Instrument, InstrumentRow, InstrumentRowView, Measurement,
    MeasurementView, Mode, ModeView, Setting, SettingView,
};
use crate::select::{select, Test};
use crate::text::{int_text, push_int, quote, quoted, same, trim, trimmed};

verus! {

/// The kinds of reading there are.
pub open spec fn is_kind(kind: Seq<char>) -> bool {
    kind == "bought"@ || kind == "charged"@ || kind == "analysed"@
}

/// The kinds of procedure there are.
pub open spec fn is_procedure_kind(kind: Seq<char>) -> bool {
    kind == "charged"@ || kind == "analysed"@
}

fn kind_known(kind: &str) -> (r: bool)
    ensures
        r == is_kind(kind@),
{
    same(kind, "bought") || same(kind, "charged") || same(kind, "analysed")
}

fn procedure_kind_known(kind: &str) -> (r: bool)
    ensures
        r == is_procedure_kind(kind@),
{
    same(kind, "charged") || same(kind, "analysed")
}

// ── Readings ────────────────────────────────────────────────────────────

/// What a reading says.
pub struct Reading {
    pub kind: String,
    pub measured_at: String,
    pub capacity_mah: Option<i64>,
    pub ir_mohm: Option<i64>,
    pub instrument_id: Option<i64>,
    pub mode_id: Option<i64>,
    pub discharge_ma: Option<i64>,
    pub charge_ma: Option<i64>,
    pub notes: String,
}

pub struct ReadingView {
    pub kind: Seq<char>,
    pub measured_at: Seq<char>,
    pub capacity_mah: Option<i64>,
    pub ir_mohm: Option<i64>,
    pub instrument_id: Option<i64>,
    pub mode_id: Option<i64>,
    pub discharge_ma: Option<i64>,
    pub charge_ma: Option<i64>,
    pub notes: Seq<char>,
}

impl View for Reading {
    type V = ReadingView;

    open spec fn view(&self) -> ReadingView {
        ReadingView {
            kind: self.kind@,
            measured_at: self.measured_at@,
            capacity_mah: self.capacity_mah,
            ir_mohm: self.ir_mohm,
            instrument_id: self.instrument_id,
            mode_id: self.mode_id,
            discharge_ma: self.discharge_ma,
            charge_ma: self.charge_ma,
            notes: self.notes@,
        }
    }
}

pub open spec fn is_not_bought_by(id: i64) -> spec_fn(MeasurementView) -> bool {
    |m: MeasurementView| !(m.battery_id == id && bought(m))
}

/// The readings that stay when one more is added: a purchase takes the place of
/// an earlier one.
pub open spec fn staying(d: DbView, id: i64, kind: Seq<char>) -> Seq<MeasurementView> {
    if kind == "bought"@ {
        d.measurements.filter(is_not_bought_by(id))
    } else {
        d.measurements
    }
}

/// Adding a reading.
pub open spec fn measured(d: DbView, id: i64, reading: ReadingView, now: Seq<char>) -> Result<
    (DbView, Option<MeasurementView>),
    DbErrorView,
> {
    if !is_kind(reading.kind) {
        Err(DbErrorView::Invalid(quoted(reading.kind) + " is not a kind of measurement."@))
    } else if !present(d.batteries, id) {
        Ok((d, None))
    } else if (reading.instrument_id matches Some(k) && !present(d.instruments, k)) || (
    reading.mode_id matches Some(k) && !present(d.modes, k)) {
        Err(DbErrorView::ForeignKey)
    } else if d.last_measurement == i64::MAX {
        Err(DbErrorView::Full)
    } else {
        let m = MeasurementView {
            id: (d.last_measurement + 1) as i64,
            battery_id: id,
            kind: reading.kind,
            measured_at: reading.measured_at,
            capacity_mah: reading.capacity_mah,
            ir_mohm: reading.ir_mohm,
            instrument_id: reading.instrument_id,
            mode_id: reading.mode_id,
            discharge_ma: reading.discharge_ma,
            charge_ma: reading.charge_ma,
            notes: trimmed(reading.notes),
            created_at: now,
        };
        Ok(
            (
                DbView {
                    measurements: staying(d, id, reading.kind).push(m),
                    last_measurement: m.id,
                    ..d
                },
                Some(m),
            ),
        )
    }
}

pub open spec fn opt_measurement(m: Option<Measurement>) -> Option<MeasurementView> {
    match m {
        Some(m) => Some(m@),
        None => None,
    }
}

/// Not the purchase of one battery.
pub struct NotBoughtBy {
    pub battery_id: i64,
}

impl Test<Measurement> for NotBoughtBy {
    open spec fn holds(&self, m: Measurement) -> bool {
        !(m.battery_id == self.battery_id && m.kind@ == "bought"@)
    }

    fn check(&self, m: &Measurement) -> (r: bool) {
        !(m.battery_id == self.battery_id && same(m.kind.as_str(), "bought"))
    }
}

/// Any other reading than the one with the number.
pub struct OtherReading {
    pub id: i64,
}

impl Test<Measurement> for OtherReading {
    open spec fn holds(&self, m: Measurement) -> bool {
        m.id != self.id
    }

    fn check(&self, m: &Measurement) -> (r: bool) {
        m.id != self.id
    }
}

pub open spec fn reading_is_not(id: i64) -> spec_fn(MeasurementView) -> bool {
    |m: MeasurementView| m.id != id
}

/// Deleting a reading gives the battery it was of.
pub open spec fn reading_deleted(d: DbView, id: i64) -> (DbView, Option<i64>) {
    match row(d.measurements, id) {
        Some(m) => (
            DbView { measurements: d.measurements.filter(reading_is_not(id)), ..d },
            Some(m.battery_id),
        ),
        None => (d, None),
    }
}

// ── Instruments ─────────────────────────────────────────────────────────

/// An instrument has at least one slot.
pub open spec fn slots_of(slots: i64) -> i64 {
    if slots >= 1 {
        slots
    } else {
        1
    }
}

pub fn clean_slots(slots: i64) -> (r: i64)
    ensures
        r == slots_of(slots),
{
    if slots >= 1 {
        slots
    } else {
        1
    }
}

pub open spec fn name_required() -> DbErrorView {
    DbErrorView::Invalid("The name is required."@)
}

fn no_name() -> (r: DbError)
    ensures
        r@ == name_required(),
{
    DbError::Invalid("The name is required.".to_string())
}

pub open spec fn instrument_added(d: DbView, name: Seq<char>, slots: i64, now: Seq<char>) -> Result<
    (DbView, InstrumentRowView),
    DbErrorView,
> {
    if trimmed(name).len() == 0 {
        Err(name_required())
    } else if d.last_instrument == i64::MAX {
        Err(DbErrorView::Full)
    } else {
        let i = InstrumentRowView {
            id: (d.last_instrument + 1) as i64,
            name: trimmed(name),
            slots: slots_of(slots),
            created_at: now,
            updated_at: now,
        };
        Ok((DbView { instruments: d.instruments.push(i), last_instrument: i.id, ..d }, i))
    }
}

pub open spec fn instrument_updated(
    d: DbView,
    id: i64,
    name: Seq<char>,
    slots: i64,
    now: Seq<char>,
) -> Result<(DbView, Option<InstrumentRowView>), DbErrorView> {
    let i = at(d.instruments, id, 0);
    if i >= d.instruments.len() {
        Ok((d, None))
    } else if trimmed(name).len() == 0 {
        Err(name_required())
    } else {
        let w = InstrumentRowView {
            name: trimmed(name),
            slots: slots_of(slots),
            updated_at: now,
            ..d.instruments[i]
        };
        Ok((DbView { instruments: d.instruments.update(i, w), ..d }, Some(w)))
    }
}

pub open spec fn instrument_is_not(id: i64) -> spec_fn(InstrumentRowView) -> bool {
    |i: InstrumentRowView| i.id != id
}

pub open spec fn mode_is_not_of(id: i64) -> spec_fn(ModeView) -> bool {
    |m: ModeView| m.instrument_id != id
}

/// A procedure of the instrument.
pub open spec fn mode_goes(modes: Seq<ModeView>, instrument: i64, id: i64) -> bool {
    exists|i: int|
        0 <= i < modes.len() && (#[trigger] modes[i]).id == id && modes[i].instrument_id
            == instrument
}

/// A reading once an instrument and its procedures are gone: it no longer says
/// that it came from them.
pub open spec fn unlinked(modes: Seq<ModeView>, instrument: i64) -> spec_fn(
    MeasurementView,
) -> MeasurementView {
    |m: MeasurementView|
        MeasurementView {
            instrument_id: if m.instrument_id == Some(instrument) {
                None
            } else {
                m.instrument_id
            },
            mode_id: match m.mode_id {
                Some(k) => if mode_goes(modes, instrument, k) {
                    None
                } else {
                    Some(k)
                },
                None => None,
            },
            ..m
        }
}

/// Deleting an instrument takes its procedures with it; the readings stay.
pub open spec fn instrument_deleted(d: DbView, id: i64) -> (DbView, bool) {
    if !present(d.instruments, id) {
        (d, false)
    } else {
        (
            DbView {
                instruments: d.instruments.filter(instrument_is_not(id)),
                modes: d.modes.filter(mode_is_not_of(id)),
                measurements: d.measurements.map_values(unlinked(d.modes, id)),
                ..d
            },
            true,
        )
    }
}

// ── Procedures ──────────────────────────────────────────────────────────

/// The field rules of a procedure as JSON: the stored ones where they are JSON
/// and say anything, else those of its kind.
pub open spec fn fields_of(fields: Seq<char>, kind: Seq<char>) -> Seq<char> {
    match json_again(fields) {
        Some(text) if fields.len() > 0 && fields != "{}"@ => text,
        _ => json_rules(default_rules(kind)),
    }
}

/// The field rules of a procedure, with its kind's where it has none.
pub fn mode_fields(mode: &Mode) -> (r: String)
    ensures
        r@ == fields_of(mode.fields@, mode.kind@),
{
    if !mode.fields.as_str().is_empty() && !same(mode.fields.as_str(), "{}") {
        if let Some(text) = written_again(mode.fields.as_str()) {
            return text;
        }
    }
    rules_text(&default_fields(mode.kind.as_str()))
}

pub open spec fn kind_required() -> DbErrorView {
    DbErrorView::Invalid("Kind must be one of charged, analysed."@)
}

fn no_kind() -> (r: DbError)
    ensures
        r@ == kind_required(),
{
    DbError::Invalid("Kind must be one of charged, analysed.".to_string())
}

/// The place behind all procedures of an instrument, none where the last one
/// has no place behind it.
pub open spec fn next_position(modes: Seq<ModeView>, instrument: i64) -> int
    decreases modes.len(),
{
    if modes.len() == 0 {
        0
    } else {
        let before = next_position(modes.drop_last(), instrument);
        let m = modes.last();
        if m.instrument_id == instrument && (m.position + 1 > before || !has_modes(
            modes.drop_last(),
            instrument,
        )) {
            m.position + 1
        } else {
            before
        }
    }
}

pub open spec fn has_modes(modes: Seq<ModeView>, instrument: i64) -> bool {
    exists|i: int| 0 <= i < modes.len() && (#[trigger] modes[i]).instrument_id == instrument
}

/// What is stored as a procedure's rules.
pub open spec fn rules_or(
    fields: Option<Seq<(Seq<char>, bool, bool)>>,
    otherwise: Seq<char>,
) -> Seq<char> {
    match fields {
        Some(f) => json_rules(f),
        None => otherwise,
    }
}

pub open spec fn mode_added(
    d: DbView,
    instrument: i64,
    name: Seq<char>,
    kind: Seq<char>,
    details: Seq<char>,
    fields: Option<Seq<(Seq<char>, bool, bool)>>,
    now: Seq<char>,
) -> Result<(DbView, ModeView), DbErrorView> {
    let position = next_position(d.modes, instrument);
    if !present(d.instruments, instrument) {
        Err(
            DbErrorView::Invalid(
                "No instrument has id "@ + int_text(instrument as int) + "."@,
            ),
        )
    } else if trimmed(name).len() == 0 {
        Err(name_required())
    } else if !is_procedure_kind(kind) {
        Err(kind_required())
    } else if d.last_mode == i64::MAX || position > i64::MAX {
        Err(DbErrorView::Full)
    } else {
        let m = ModeView {
            id: (d.last_mode + 1) as i64,
            instrument_id: instrument,
            name: trimmed(name),
            kind,
            details: trimmed(details),
            position: position as i64,
            created_at: now,
            updated_at: now,
            fields: rules_or(fields, json_rules(default_rules(kind))),
        };
        Ok((DbView { modes: d.modes.push(m), last_mode: m.id, ..d }, m))
    }
}

pub open spec fn mode_updated(
    d: DbView,
    id: i64,
    name: Seq<char>,
    kind: Seq<char>,
    details: Seq<char>,
    fields: Option<Seq<(Seq<char>, bool, bool)>>,
    now: Seq<char>,
) -> Result<(DbView, Option<ModeView>), DbErrorView> {
    let i = at(d.modes, id, 0);
    if i >= d.modes.len() {
        Ok((d, None))
    } else if trimmed(name).len() == 0 {
        Err(name_required())
    } else if !is_procedure_kind(kind) {
        Err(kind_required())
    } else {
        let was = d.modes[i];
        let m = ModeView {
            name: trimmed(name),
            kind,
            details: trimmed(details),
            fields: rules_or(fields, fields_of(was.fields, was.kind)),
            updated_at: now,
            ..was
        };
        Ok((DbView { modes: d.modes.update(i, m), ..d }, Some(m)))
    }
}

pub open spec fn mode_is_not(id: i64) -> spec_fn(ModeView) -> bool {
    |m: ModeView| m.id != id
}

pub open spec fn without_mode(id: i64) -> spec_fn(MeasurementView) -> MeasurementView {
    |m: MeasurementView|
        MeasurementView {
            mode_id: if m.mode_id == Some(id) {
                None
            } else {
                m.mode_id
            },
            ..m
        }
}

pub open spec fn mode_deleted(d: DbView, id: i64) -> (DbView, bool) {
    if !present(d.modes, id) {
        (d, false)
    } else {
        (
            DbView {
                modes: d.modes.filter(mode_is_not(id)),
                measurements: d.measurements.map_values(without_mode(id)),
                ..d
            },
            true,
        )
    }
}

/// Whether a procedure is displayed before another.
pub open spec fn shown_before(a: ModeView, b: ModeView) -> bool {
    a.position < b.position || (a.position == b.position && a.id < b.id)
}

/// The row of the procedure displayed just before (or just after) another one
/// of the same instrument, among the first `n` rows.
pub open spec fn neighbour(modes: Seq<ModeView>, m: ModeView, up: bool, n: int) -> Option<int>
    decreases n,
{
    if n <= 0 {
        None
    } else {
        let best = neighbour(modes, m, up, n - 1);
        let c = modes[n - 1];
        let beyond = c.instrument_id == m.instrument_id && (if up {
            shown_before(c, m)
        } else {
            shown_before(m, c)
        });
        let nearer = match best {
            Some(k) => if up {
                shown_before(modes[k], c)
            } else {
                shown_before(c, modes[k])
            },
            None => true,
        };
        if beyond && nearer {
            Some(n - 1)
        } else {
            best
        }
    }
}

/// Moving a procedure up or down: it changes places with the one displayed
/// next to it, whatever gap there is between their positions.
pub open spec fn mode_moved(d: DbView, id: i64, direction: Seq<char>, now: Seq<char>) -> Result<
    (DbView, bool),
    DbErrorView,
> {
    let i = at(d.modes, id, 0);
    if direction != "up"@ && direction != "down"@ {
        Err(DbErrorView::Invalid(quoted(direction) + " is not a direction."@))
    } else if i >= d.modes.len() {
        Ok((d, false))
    } else {
        match neighbour(d.modes, d.modes[i], direction == "up"@, d.modes.len() as int) {
            Some(k) => {
                let here = d.modes[i];
                let there = d.modes[k];
                Ok(
                    (
                        DbView {
                            modes: d.modes.update(
                                i,
                                ModeView { position: there.position, updated_at: now, ..here },
                            ).update(
                                k,
                                ModeView { position: here.position, updated_at: now, ..there },
                            ),
                            ..d
                        },
                        true,
                    ),
                )
            },
            None => Ok((d, false)),
        }
    }
}

pub open spec fn opt_mode(m: Option<Mode>) -> Option<ModeView> {
    match m {
        Some(m) => Some(m@),
        None => None,
    }
}

pub open spec fn opt_rules(f: Option<&Vec<FieldRule>>) -> Option<Seq<(Seq<char>, bool, bool)>> {
    match f {
        Some(f) => Some(rule_views(f@)),
        None => None,
    }
}

/// Any other instrument than the one with the number.
pub struct OtherInstrument {
    pub id: i64,
}

impl Test<InstrumentRow> for OtherInstrument {
    open spec fn holds(&self, i: InstrumentRow) -> bool {
        i.id != self.id
    }

    fn check(&self, i: &InstrumentRow) -> (r: bool) {
        i.id != self.id
    }
}

impl Test<Mode> for OtherInstrument {
    open spec fn holds(&self, m: Mode) -> bool {
        m.instrument_id != self.id
    }

    fn check(&self, m: &Mode) -> (r: bool) {
        m.instrument_id != self.id
    }
}

/// Any other procedure than the one with the number.
pub struct OtherMode {
    pub id: i64,
}

impl Test<Mode> for OtherMode {
    open spec fn holds(&self, m: Mode) -> bool {
        m.id != self.id
    }

    fn check(&self, m: &Mode) -> (r: bool) {
        m.id != self.id
    }
}

// ── Settings ────────────────────────────────────────────────────────────

/// Where a setting stands, from a place on; behind the last if it is not there.
pub open spec fn setting_at(settings: Seq<SettingView>, key: Seq<char>, from: int) -> int
    decreases settings.len() - from,
{
    if from >= settings.len() {
        settings.len() as int
    } else if settings[from].key == key {
        from
    } else {
        setting_at(settings, key, from + 1)
    }
}

pub open spec fn setting_saved(d: DbView, key: Seq<char>, value: Seq<char>, now: Seq<char>) -> DbView {
    let i = setting_at(d.settings, key, 0);
    let s = SettingView { key, value, updated_at: now };
    if i < d.settings.len() {
        DbView { settings: d.settings.update(i, s), ..d }
    } else {
        DbView { settings: d.settings.push(s), ..d }
    }
}

pub open spec fn setting_is_not(key: Seq<char>) -> spec_fn(SettingView) -> bool {
    |s: SettingView| s.key != key
}

pub open spec fn setting_deleted(d: DbView, key: Seq<char>) -> DbView {
    DbView { settings: d.settings.filter(setting_is_not(key)), ..d }
}

/// Any other setting than the one under the key.
pub struct OtherSetting {
    pub key: String,
}

impl Test<Setting> for OtherSetting {
    open spec fn holds(&self, s: Setting) -> bool {
        s.key@ != self.key@
    }

    fn check(&self, s: &Setting) -> (r: bool) {
        !same(s.key.as_str(), self.key.as_str())
    }
}

fn mode_goes_with(modes: &Vec<Mode>, instrument: i64, id: i64) -> (r: bool)
    ensures
        r == mode_goes(views_of(modes@), instrument, id),
{
    let mut i: usize = 0;
    while i < modes.len()
        invariant
            i <= modes@.len(),
            forall|j: int|
                0 <= j < i ==> !((#[trigger] views_of(modes@)[j]).id == id && views_of(
                    modes@,
                )[j].instrument_id == instrument),
        decreases modes@.len() - i,
    {
        assert(views_of(modes@)[i as int] == modes@[i as int]@);
        if modes[i].id == id && modes[i].instrument_id == instrument {
            return true;
        }
        i = i + 1;
    }
    false
}

fn unlink_all(rows: &Vec<Measurement>, modes: &Vec<Mode>, instrument: i64) -> (r: Vec<Measurement>)
    ensures
        views_of(r@) == views_of(rows@).map_values(unlinked(views_of(modes@), instrument)),
{
    let mut out: Vec<Measurement> = Vec::new();
    let mut i: usize = 0;
    let ghost wanted = views_of(rows@).map_values(unlinked(views_of(modes@), instrument));
    assert(views_of(out@) =~= wanted.take(0));
    while i < rows.len()
        invariant
            i <= rows@.len(),
            wanted == views_of(rows@).map_values(unlinked(views_of(modes@), instrument)),
            views_of(out@) == wanted.take(i as int),
        decreases rows@.len() - i,
    {
        let mut m = rows[i].clone();
        if let Some(k) = m.instrument_id {
            if k == instrument {
                m.instrument_id = None;
            }
        }
        if let Some(k) = m.mode_id {
            if mode_goes_with(modes, instrument, k) {
                m.mode_id = None;
            }
        }
        proof {
            lemma_views_push(out@, m);
            assert(m@ =~= unlinked(views_of(modes@), instrument)(rows@[i as int]@));
        }
        out.push(m);
        assert(views_of(out@) =~= wanted.take(i + 1));
        i = i + 1;
    }
    assert(wanted.take(rows@.len() as int) =~= wanted);
    out
}

fn without_mode_all(rows: &Vec<Measurement>, id: i64) -> (r: Vec<Measurement>)
    ensures
        views_of(r@) == views_of(rows@).map_values(without_mode(id)),
{
    let mut out: Vec<Measurement> = Vec::new();
    let mut i: usize = 0;
    let ghost wanted = views_of(rows@).map_values(without_mode(id));
    assert(views_of(out@) =~= wanted.take(0));
    while i < rows.len()
        invariant
            i <= rows@.len(),
            wanted == views_of(rows@).map_values(without_mode(id)),
            views_of(out@) == wanted.take(i as int),
        decreases rows@.len() - i,
    {
        let mut m = rows[i].clone();
        if let Some(k) = m.mode_id {
            if k == id {
                m.mode_id = None;
            }
        }
        proof {
            lemma_views_push(out@, m);
            assert(m@ =~= without_mode(id)(rows@[i as int]@));
        }
        out.push(m);
        assert(views_of(out@) =~= wanted.take(i + 1));
        i = i + 1;
    }
    assert(wanted.take(rows@.len() as int) =~= wanted);
    out
}

fn shown_earlier(a: &Mode, b: &Mode) -> (r: bool)
    ensures
        r == shown_before(a@, b@),
{
    a.position < b.position || (a.position == b.position && a.id < b.id)
}

impl Db {
    /// Adds a reading of a battery. A purchase takes the place of an earlier
    /// one: it is a single fact about a battery.
    pub fn add_reading(&mut self, battery_id: i64, reading: &Reading, now: &str) -> (r: DbResult<
        Option<Measurement>,
    >)
        ensures
            match r {
                Ok(m) => measured(old(self)@, battery_id, reading@, now@) == Ok::<
                    (DbView, Option<MeasurementView>),
                    DbErrorView,
                >((final(self)@, opt_measurement(m))),
                Err(e) => *final(self) == *old(self) && measured(
                    old(self)@,
                    battery_id,
                    reading@,
                    now@,
                ) == Err::<(DbView, Option<MeasurementView>), DbErrorView>(e@),
            },
            final(self).batteries == old(self).batteries,
    {
        if !kind_known(reading.kind.as_str()) {
            let mut m = quote(reading.kind.as_str());
            m.append(" is not a kind of measurement.");
            return Err(DbError::Invalid(m));
        }
        proof {
            lemma_views_at::<BatteryView, Battery>(self.batteries@, battery_id, 0);
        }
        if find(&self.batteries, battery_id).is_none() {
            return Ok(None);
        }
        if let Some(k) = reading.instrument_id {
            proof {
                lemma_views_at::<InstrumentRowView, InstrumentRow>(self.instruments@, k, 0);
            }
            if find(&self.instruments, k).is_none() {
                return Err(DbError::ForeignKey);
            }
        }
        if let Some(k) = reading.mode_id {
            proof {
                lemma_views_at::<ModeView, Mode>(self.modes@, k, 0);
            }
            if find(&self.modes, k).is_none() {
                return Err(DbError::ForeignKey);
            }
        }
        if self.last_measurement == i64::MAX {
            return Err(DbError::Full);
        }
        let m = Measurement {
            id: self.last_measurement + 1,
            battery_id,
            kind: reading.kind.clone(),
            measured_at: reading.measured_at.clone(),
            capacity_mah: reading.capacity_mah,
            ir_mohm: reading.ir_mohm,
            instrument_id: reading.instrument_id,
            mode_id: reading.mode_id,
            discharge_ma: reading.discharge_ma,
            charge_ma: reading.charge_ma,
            notes: trim(reading.notes.as_str()).to_string(),
            created_at: now.to_string(),
        };
        if same(reading.kind.as_str(), "bought") {
            let p = NotBoughtBy { battery_id };
            proof {
                lemma_kept_views(p, self.measurements@, is_not_bought_by(battery_id));
            }
            self.measurements = select(&p, &self.measurements);
        }
        let out = m.clone();
        proof {
            lemma_views_push(self.measurements@, m);
        }
        self.last_measurement = m.id;
        self.measurements.push(m);
        Ok(Some(out))
    }

    /// Adds a reading of a battery, given by its parts.
    pub fn add_measurement(
        &mut self,
        battery_id: i64,
        kind: &str,
        measured_at: &str,
        capacity_mah: Option<i64>,
        ir_mohm: Option<i64>,
        instrument_id: Option<i64>,
        mode_id: Option<i64>,
        discharge_ma: Option<i64>,
        charge_ma: Option<i64>,
        notes: &str,
        now: &str,
    ) -> (r: DbResult<Option<Measurement>>)
        ensures
            ({
                let reading = ReadingView {
                    kind: kind@,
                    measured_at: measured_at@,
                    capacity_mah,
                    ir_mohm,
                    instrument_id,
                    mode_id,
                    discharge_ma,
                    charge_ma,
                    notes: notes@,
                };
                match r {
                    Ok(m) => measured(old(self)@, battery_id, reading, now@) == Ok::<
                        (DbView, Option<MeasurementView>),
                        DbErrorView,
                    >((final(self)@, opt_measurement(m))),
                    Err(e) => *final(self) == *old(self) && measured(
                        old(self)@,
                        battery_id,
                        reading,
                        now@,
                    ) == Err::<(DbView, Option<MeasurementView>), DbErrorView>(e@),
                }
            }),
    {
        let reading = Reading {
            kind: kind.to_string(),
            measured_at: measured_at.to_string(),
            capacity_mah,
            ir_mohm,
            instrument_id,
            mode_id,
            discharge_ma,
            charge_ma,
            notes: notes.to_string(),
        };
        self.add_reading(battery_id, &reading, now)
    }

    /// Deletes a reading, and says which battery it was of.
    pub fn delete_measurement(&mut self, id: i64) -> (r: DbResult<Option<i64>>)
        ensures
            r matches Ok(b) && (final(self)@, b) == reading_deleted(old(self)@, id),
    {
        proof {
            lemma_views_at::<MeasurementView, Measurement>(self.measurements@, id, 0);
            lemma_views(self.measurements@);
        }
        let battery_id = match find(&self.measurements, id) {
            Some(i) => self.measurements[i].battery_id,
            None => return Ok(None),
        };
        let p = OtherReading { id };
        proof {
            lemma_kept_views(p, self.measurements@, reading_is_not(id));
        }
        self.measurements = select(&p, &self.measurements);
        Ok(Some(battery_id))
    }

    /// Adds an instrument.
    pub fn add_instrument(&mut self, name: &str, slots: i64, now: &str) -> (r: DbResult<Instrument>)
        ensures
            match r {
                Ok(i) => i.modes@ == modes_of(final(self).modes@, i.id) && instrument_added(
                    old(self)@,
                    name@,
                    slots,
                    now@,
                ) == Ok::<(DbView, InstrumentRowView), DbErrorView>(
                    (final(self)@, instrument_row(i)),
                ),
                Err(e) => *final(self) == *old(self) && instrument_added(
                    old(self)@,
                    name@,
                    slots,
                    now@,
                ) == Err::<(DbView, InstrumentRowView), DbErrorView>(e@),
            },
    {
        let name = trim(name);
        if name.is_empty() {
            return Err(no_name());
        }
        if self.last_instrument == i64::MAX {
            return Err(DbError::Full);
        }
        let i = InstrumentRow {
            id: self.last_instrument + 1,
            name: name.to_string(),
            slots: clean_slots(slots),
            created_at: now.to_string(),
            updated_at: now.to_string(),
        };
        let out = self.with_modes(&i);
        proof {
            lemma_views_push(self.instruments@, i);
        }
        self.last_instrument = i.id;
        self.instruments.push(i);
        Ok(out)
    }

    /// Renames an instrument or changes its slots.
    pub fn update_instrument(&mut self, instrument_id: i64, name: &str, slots: i64, now: &str) -> (r:
        DbResult<Option<Instrument>>)
        ensures
            match r {
                Ok(i) => (i matches Some(i) ==> i.modes@ == modes_of(final(self).modes@, i.id))
                    && instrument_updated(old(self)@, instrument_id, name@, slots, now@) == Ok::<
                    (DbView, Option<InstrumentRowView>),
                    DbErrorView,
                >(
                    (
                        final(self)@,
                        match i {
                            Some(i) => Some(instrument_row(i)),
                            None => None,
                        },
                    ),
                ),
                Err(e) => *final(self) == *old(self) && instrument_updated(
                    old(self)@,
                    instrument_id,
                    name@,
                    slots,
                    now@,
                ) == Err::<(DbView, Option<InstrumentRowView>), DbErrorView>(e@),
            },
    {
        proof {
            lemma_views_at::<InstrumentRowView, InstrumentRow>(self.instruments@, instrument_id, 0);
            lemma_views(self.instruments@);
        }
        let i = match find(&self.instruments, instrument_id) {
            Some(i) => i,
            None => return Ok(None),
        };
        let name = trim(name);
        if name.is_empty() {
            return Err(no_name());
        }
        let mut w = self.instruments[i].clone();
        w.name = name.to_string();
        w.slots = clean_slots(slots);
        w.updated_at = now.to_string();
        let out = self.with_modes(&w);
        proof {
            lemma_views_update(self.instruments@, i as int, w);
        }
        self.instruments.set(i, w);
        Ok(Some(out))
    }

    /// Deletes an instrument and its procedures; readings keep everything but
    /// where they came from.
    pub fn delete_instrument(&mut self, instrument_id: i64) -> (r: DbResult<bool>)
        ensures
            r matches Ok(b) && (final(self)@, b) == instrument_deleted(old(self)@, instrument_id),
    {
        proof {
            lemma_views_at::<InstrumentRowView, InstrumentRow>(self.instruments@, instrument_id, 0);
        }
        if find(&self.instruments, instrument_id).is_none() {
            return Ok(false);
        }
        let p = OtherInstrument { id: instrument_id };
        proof {
            lemma_kept_views(p, self.instruments@, instrument_is_not(instrument_id));
            lemma_kept_views(p, self.modes@, mode_is_not_of(instrument_id));
        }
        self.measurements = unlink_all(&self.measurements, &self.modes, instrument_id);
        self.instruments = select(&p, &self.instruments);
        self.modes = select(&p, &self.modes);
        Ok(true)
    }

    fn position_behind(&self, instrument_id: i64) -> (r: i128)
        ensures
            r == next_position(self@.modes, instrument_id),
    {
        let mut next: i128 = 0;
        let mut any = false;
        let mut i: usize = 0;
        while i < self.modes.len()
            invariant
                i <= self.modes@.len(),
                next == next_position(self@.modes.take(i as int), instrument_id),
                any == has_modes(self@.modes.take(i as int), instrument_id),
            decreases self.modes@.len() - i,
        {
            let ghost before = self@.modes.take(i as int);
            let ghost after = self@.modes.take(i + 1);
            assert(after.drop_last() =~= before);
            assert(after.last() == self.modes@[i as int]@);
            let m = &self.modes[i];
            let here = m.position as i128 + 1;
            if m.instrument_id == instrument_id {
                if here > next || !any {
                    next = here;
                }
                assert(after[i as int].instrument_id == instrument_id);
                any = true;
            } else {
                proof {
                    if has_modes(before, instrument_id) {
                        let j = choose|j: int|
                            0 <= j < before.len() && (#[trigger] before[j]).instrument_id
                                == instrument_id;
                        assert(after[j].instrument_id == instrument_id);
                    }
                    if has_modes(after, instrument_id) {
                        let j = choose|j: int|
                            0 <= j < after.len() && (#[trigger] after[j]).instrument_id
                                == instrument_id;
                        assert(j < i);
                        assert(before[j].instrument_id == instrument_id);
                    }
                }
            }
            i = i + 1;
        }
        assert(self@.modes.take(self.modes@.len() as int) =~= self@.modes);
        next
    }

    /// Adds a procedure to an instrument, behind the others.
    pub fn add_mode(
        &mut self,
        instrument_id: i64,
        name: &str,
        kind: &str,
        details: &str,
        fields: Option<&Vec<FieldRule>>,
        now: &str,
    ) -> (r: DbResult<Mode>)
        ensures
            match r {
                Ok(m) => mode_added(
                    old(self)@,
                    instrument_id,
                    name@,
                    kind@,
                    details@,
                    opt_rules(fields),
                    now@,
                ) == Ok::<(DbView, ModeView), DbErrorView>((final(self)@, m@)),
                Err(e) => *final(self) == *old(self) && mode_added(
                    old(self)@,
                    instrument_id,
                    name@,
                    kind@,
                    details@,
                    opt_rules(fields),
                    now@,
                ) == Err::<(DbView, ModeView), DbErrorView>(e@),
            },
    {
        proof {
            lemma_views_at::<InstrumentRowView, InstrumentRow>(self.instruments@, instrument_id, 0);
        }
        if find(&self.instruments, instrument_id).is_none() {
            let mut m = "No instrument has id ".to_string();
            push_int(&mut m, instrument_id as i128);
            m.append(".");
            return Err(DbError::Invalid(m));
        }
        let name = trim(name);
        if name.is_empty() {
            return Err(no_name());
        }
        if !procedure_kind_known(kind) {
            return Err(no_kind());
        }
        let position = self.position_behind(instrument_id);
        if self.last_mode == i64::MAX || position > i64::MAX as i128 {
            return Err(DbError::Full);
        }
        proof {
            lemma_next_position(self@.modes, instrument_id);
        }
        let text = match fields {
            Some(f) => rules_text(f),
            None => rules_text(&default_fields(kind)),
        };
        let m = Mode {
            id: self.last_mode + 1,
            instrument_id,
            name: name.to_string(),
            kind: kind.to_string(),
            details: trim(details).to_string(),
            position: position as i64,
            created_at: now.to_string(),
            updated_at: now.to_string(),
            fields: text,
        };
        let out = m.clone();
        proof {
            lemma_views_push(self.modes@, m);
        }
        self.last_mode = m.id;
        self.modes.push(m);
        Ok(out)
    }

    /// Changes a procedure.
    pub fn update_mode(
        &mut self,
        mode_id: i64,
        name: &str,
        kind: &str,
        details: &str,
        fields: Option<&Vec<FieldRule>>,
        now: &str,
    ) -> (r: DbResult<Option<Mode>>)
        ensures
            match r {
                Ok(m) => mode_updated(
                    old(self)@,
                    mode_id,
                    name@,
                    kind@,
                    details@,
                    opt_rules(fields),
                    now@,
                ) == Ok::<(DbView, Option<ModeView>), DbErrorView>((final(self)@, opt_mode(m))),
                Err(e) => *final(self) == *old(self) && mode_updated(
                    old(self)@,
                    mode_id,
                    name@,
                    kind@,
                    details@,
                    opt_rules(fields),
                    now@,
                ) == Err::<(DbView, Option<ModeView>), DbErrorView>(e@),
            },
    {
        proof {
            lemma_views_at::<ModeView, Mode>(self.modes@, mode_id, 0);
            lemma_views(self.modes@);
        }
        let i = match find(&self.modes, mode_id) {
            Some(i) => i,
            None => return Ok(None),
        };
        let name = trim(name);
        if name.is_empty() {
            return Err(no_name());
        }
        if !procedure_kind_known(kind) {
            return Err(no_kind());
        }
        let mut m = self.modes[i].clone();
        m.fields = match fields {
            Some(f) => rules_text(f),
            None => mode_fields(&self.modes[i]),
        };
        m.name = name.to_string();
        m.kind = kind.to_string();
        m.details = trim(details).to_string();
        m.updated_at = now.to_string();
        let out = m.clone();
        proof {
            lemma_views_update(self.modes@, i as int, m);
        }
        self.modes.set(i, m);
        Ok(Some(out))
    }

    /// Deletes a procedure; readings keep everything but that they followed it.
    pub fn delete_mode(&mut self, mode_id: i64) -> (r: DbResult<bool>)
        ensures
            r matches Ok(b) && (final(self)@, b) == mode_deleted(old(self)@, mode_id),
    {
        proof {
            lemma_views_at::<ModeView, Mode>(self.modes@, mode_id, 0);
        }
        if find(&self.modes, mode_id).is_none() {
            return Ok(false);
        }
        let p = OtherMode { id: mode_id };
        proof {
            lemma_kept_views(p, self.modes@, mode_is_not(mode_id));
        }
        self.measurements = without_mode_all(&self.measurements, mode_id);
        self.modes = select(&p, &self.modes);
        Ok(true)
    }

    fn neighbour_of(&self, m: &Mode, up: bool) -> (r: Option<usize>)
        ensures
            match (r, neighbour(self@.modes, m@, up, self@.modes.len() as int)) {
                (Some(i), Some(k)) => i == k && i < self.modes@.len(),
                (None, None) => true,
                _ => false,
            },
    {
        let mut best: Option<usize> = None;
        let mut i: usize = 0;
        while i < self.modes.len()
            invariant
                i <= self.modes@.len(),
                match (best, neighbour(self@.modes, m@, up, i as int)) {
                    (Some(a), Some(k)) => a == k && a < i,
                    (None, None) => true,
                    _ => false,
                },
            decreases self.modes@.len() - i,
        {
            let c = &self.modes[i];
            assert(self@.modes[i as int] == c@);
            let beyond = c.instrument_id == m.instrument_id && (if up {
                shown_earlier(c, m)
            } else {
                shown_earlier(m, c)
            });
            let nearer = match best {
                Some(k) => {
                    assert(self@.modes[k as int] == self.modes@[k as int]@);
                    if up {
                        shown_earlier(&self.modes[k], c)
                    } else {
                        shown_earlier(c, &self.modes[k])
                    }
                },
                None => true,
            };
            if beyond && nearer {
                best = Some(i);
            }
            i = i + 1;
        }
        best
    }

    /// Moves a procedure up or down past the one displayed next to it. Says
    /// whether it moved: an unknown one, or one at that end already, does not.
    pub fn move_mode(&mut self, mode_id: i64, direction: &str, now: &str) -> (r: DbResult<bool>)
        ensures
            match r {
                Ok(b) => mode_moved(old(self)@, mode_id, direction@, now@) == Ok::<
                    (DbView, bool),
                    DbErrorView,
                >((final(self)@, b)),
                Err(e) => *final(self) == *old(self) && mode_moved(
                    old(self)@,
                    mode_id,
                    direction@,
                    now@,
                ) == Err::<(DbView, bool), DbErrorView>(e@),
            },
    {
        let up = same(direction, "up");
        if !up && !same(direction, "down") {
            let mut m = quote(direction);
            m.append(" is not a direction.");
            return Err(DbError::Invalid(m));
        }
        proof {
            lemma_views_at::<ModeView, Mode>(self.modes@, mode_id, 0);
            lemma_views(self.modes@);
        }
        let i = match find(&self.modes, mode_id) {
            Some(i) => i,
            None => return Ok(false),
        };
        let k = match self.neighbour_of(&self.modes[i], up) {
            Some(k) => k,
            None => return Ok(false),
        };
        let mut here = self.modes[i].clone();
        let mut there = self.modes[k].clone();
        let here_position = here.position;
        here.position = there.position;
        there.position = here_position;
        here.updated_at = now.to_string();
        there.updated_at = now.to_string();
        proof {
            lemma_views_update(self.modes@, i as int, here);
            lemma_views_update(self.modes@.update(i as int, here), k as int, there);
        }
        self.modes.set(i, here);
        self.modes.set(k, there);
        Ok(true)
    }

    /// Stores a value under a key.
    pub fn set_setting(&mut self, key: &str, value: &str, now: &str) -> (r: DbResult<()>)
        ensures
            r is Ok,
            final(self)@ == setting_saved(old(self)@, key@, value@, now@),
            final(self).batteries == old(self).batteries,
            final(self).history == old(self).history,
            final(self).measurements == old(self).measurements,
            final(self).instruments == old(self).instruments,
            final(self).modes == old(self).modes,
            final(self).matches == old(self).matches,
    {
        let s = Setting {
            key: key.to_string(),
            value: value.to_string(),
            updated_at: now.to_string(),
        };
        let mut i: usize = 0;
        while i < self.settings.len()
            invariant
                i <= self.settings@.len(),
                *self == *old(self),
                setting_at(self@.settings, key@, 0) == setting_at(self@.settings, key@, i as int),
                s@ == (SettingView { key: key@, value: value@, updated_at: now@ }),
            decreases self.settings@.len() - i,
        {
            assert(self@.settings[i as int] == self.settings@[i as int]@);
            if same(self.settings[i].key.as_str(), key) {
                proof {
                    lemma_views_update(self.settings@, i as int, s);
                }
                self.settings.set(i, s);
                return Ok(());
            }
            i = i + 1;
        }
        proof {
            lemma_views_push(self.settings@, s);
        }
        self.settings.push(s);
        Ok(())
    }

    /// Removes what is stored under a key.
    pub fn delete_setting(&mut self, key: &str) -> (r: DbResult<()>)
        ensures
            r is Ok,
            final(self)@ == setting_deleted(old(self)@, key@),
    {
        let p = OtherSetting { key: key.to_string() };
        proof {
            lemma_kept_views(p, self.settings@, setting_is_not(key@));
        }
        self.settings = select(&p, &self.settings);
        Ok(())
    }
}

pub proof fn lemma_next_position(modes: Seq<ModeView>, instrument: i64)
    ensures
        next_position(modes, instrument) >= i64::MIN,
    decreases modes.len(),
{
    if modes.len() > 0 {
        lemma_next_position(modes.drop_last(), instrument);
    }
}

} // verus!
