//! The pages, each with everything that is shown on it.

use std::collections::HashMap;
use vstd::prelude::*;
use vstd::string::*;
use crate::config::{get, group_list, overview, sections_of, setting_list, value_of, Section};
use crate::db::{row, views_of, Db};
use crate::dict::Dict;
use crate::helpers::{
    fields_to_value, get_row_str, row_field, value_views, values_of, FieldValue, FieldValueView,
};
use crate::links::{redirect_target, str_pair_views, target_of};
use crate::list::{
    brand_values, column_values, health_limit_of, highest_id, highest_number, location_values,
    type_values, ListPage,
};
use crate::matching::Candidate;
use crate::printer::{printer_status, status_of, PrinterStatus};
use crate::reads::{
    by_use, latest_by_instrument, moves, next_number, number_above, number_below, readings,
    values_in, window, Column,
};
use crate::rows::{opt_text, Battery, LocationEntry, Match, Measurement};
use crate::text::{int_text, pad3, pad3_text, push_int};
use crate::view::{
    are_choices, are_editable, are_limits, condition_view, editable_instruments,
    instrument_choices, instrument_names, ir_limits, mode_names, mode_names_of, names_of,
    reading_row, Condition, EditableInstrument, FieldFlags, InstrumentChoice, ReadingRow,
};

verus! {

// ── Results ─────────────────────────────────────────────────────────────

/// A page, by kind.
#[derive(Debug)]
pub enum Page {
    List(ListPage),
    Add(AddPage),
    Scan(ScanPage),
    Print(PrintPage),
    Instruments(InstrumentsPage),
    Settings(SettingsPage),
    BatchMeasure(BatchMeasurePage),
    BatchLocation(BatchLocationPage),
    Match(MatchPage),
    MatchLog(MatchLogPage),
    Detail(DetailPage),
    Missing(MissingPage),
}

/// What comes of a link or a form: a page to show, or another place to go.
#[derive(Debug)]
pub enum CommandResult {
    Page {
        page: Page,
        title: String,
        open_dialog: Option<String>,
        msg: String,
        error: String,
    },
    Redirect { path: String, query: Option<String> },
}

impl CommandResult {
    /// A page with these texts around it. No dialog is open where none is
    /// named.
    pub open spec fn framed(
        &self,
        title: Seq<char>,
        msg: Seq<char>,
        error: Seq<char>,
        dialog: Seq<char>,
    ) -> bool {
        &&& *self is Page
        &&& self->title@ == title
        &&& self->msg@ == msg
        &&& self->error@ == error
        &&& opt_text(self->open_dialog) == (if dialog.len() == 0 {
            None
        } else {
            Some(dialog)
        })
    }

    /// A redirect to a path, with some pairs added to its query.
    pub open spec fn leads(&self, path: Seq<char>, pairs: Seq<(Seq<char>, Seq<char>)>) -> bool {
        *self is Redirect && (self->path@, opt_text(self->query)) == target_of(path, pairs)
    }
}

/// A redirect. What the path carries as a query of its own is kept, and the
/// pairs are added to it.
pub fn redirect(path: &str, pairs: &Vec<(&str, &str)>) -> (r: CommandResult)
    ensures
        r.leads(path@, str_pair_views(pairs@)),
        crate::links::pairs_in(opt_text(r->query)) == crate::links::pairs_in(
            crate::links::query_in(path@),
        ) + crate::links::filled(str_pair_views(pairs@)),
{
    let (path, query) = redirect_target(path, pairs);
    CommandResult::Redirect { path, query }
}

fn page(body: Page, title: &str, msg: &str, error: &str, dialog: &str) -> (r: CommandResult)
    ensures
        r.framed(title@, msg@, error@, dialog@),
        r->page == body,
{
    CommandResult::Page {
        page: body,
        title: title.to_string(),
        open_dialog: if dialog.is_empty() {
            None
        } else {
            Some(dialog.to_string())
        },
        msg: msg.to_string(),
        error: error.to_string(),
    }
}

pub fn list_result(p: ListPage, msg: &str, error: &str) -> (r: CommandResult)
    ensures
        r.framed("Batteries"@, msg@, error@, ""@),
        r->page == Page::List(p),
{
    page(Page::List(p), "Batteries", msg, error, "")
}

// ── Nothing there ───────────────────────────────────────────────────────

/// What was looked for and is not there.
#[derive(Debug)]
pub enum MissingPage {
    Battery(i64),
    Path(String),
}

pub open spec fn is_not_found(r: CommandResult, path: Seq<char>) -> bool {
    r.framed("Not found"@, ""@, ""@, ""@) && (r->page matches Page::Missing(p) && (
    p matches MissingPage::Path(s) && s@ == "? ("@ + crate::text::quoted(path) + ")"@))
}

/// The page for a path that leads nowhere; it shows the path, so that a broken
/// link can be told from its page.
pub fn not_found_result(path: &str) -> (r: CommandResult)
    ensures
        is_not_found(r, path@),
{
    let mut m = "? (".to_string();
    m.append(crate::text::quote(path).as_str());
    m.append(")");
    page(Page::Missing(MissingPage::Path(m)), "Not found", "", "", "")
}

pub open spec fn is_missing(r: CommandResult, id: i64) -> bool {
    r.framed("Battery "@ + int_text(id as int), ""@, ""@, ""@) && r->page == Page::Missing(
        MissingPage::Battery(id),
    )
}

fn missing_battery(id: i64) -> (r: CommandResult)
    ensures
        is_missing(r, id),
{
    let mut title = "Battery ".to_string();
    push_int(&mut title, id as i128);
    page(Page::Missing(MissingPage::Battery(id)), title.as_str(), "", "", "")
}

// ── Locations ───────────────────────────────────────────────────────────

/// How many locations are offered as the usual ones.
pub const TOP_LOCATIONS: i64 = 8;

/// The locations that are used most.
pub open spec fn usual_locations(db: Db) -> Seq<String> {
    let all = by_use(
        db.batteries@,
        Column::Location,
        values_in(db.batteries@, Column::Location, false),
    );
    all.take(window(all.len() as int, TOP_LOCATIONS, 0).1)
}

fn top_locations(db: &Db) -> (r: Vec<String>)
    ensures
        r@ == usual_locations(*db),
{
    proof {
        crate::reads::lemma_columns();
    }
    match db.popular("location", TOP_LOCATIONS) {
        Ok(v) => v,
        Err(_) => Vec::new(),
    }
}

// ── Adding batteries ────────────────────────────────────────────────────

#[derive(Debug)]
pub struct AddPage {
    pub printer: PrinterStatus,
    pub suggested_id: i64,
    pub types: Vec<String>,
    pub brands: Vec<String>,
    pub locations: Vec<String>,
    pub top_locations: Vec<String>,
    pub print_on_add: bool,
    pub add_values: Vec<(String, FieldValue)>,
}

/// The next free number, or one where there is none.
pub open spec fn next_or_one(db: Db) -> i64 {
    match next_number(db.batteries@) {
        Some(n) => n,
        None => 1,
    }
}

pub fn next_number_or_one(db: &Db) -> (r: i64)
    ensures
        r == next_or_one(*db),
{
    match db.next_id() {
        Ok(n) => n,
        Err(_) => 1,
    }
}

impl AddPage {
    pub open spec fn shows(
        &self,
        db: Db,
        env: Dict<String>,
        values: Seq<(Seq<char>, FieldValueView)>,
    ) -> bool {
        &&& (self.printer.available, self.printer.description@) == status_of(db@.settings, env)
        &&& self.suggested_id == next_or_one(db)
        &&& self.types@ == column_values(db, Column::CellType)
        &&& self.brands@ == column_values(db, Column::Brand)
        &&& self.locations@ == column_values(db, Column::Location)
        &&& self.top_locations@ == usual_locations(db)
        &&& self.print_on_add == value_of(db@.settings, env, "print_on_add"@).is_on()
        &&& value_views(self.add_values@) == values
    }
}

/// The page to add batteries, with what was typed on it before.
pub open spec fn is_add_page(
    r: CommandResult,
    db: Db,
    env: Dict<String>,
    msg: Seq<char>,
    error: Seq<char>,
    values: Seq<(Seq<char>, FieldValueView)>,
) -> bool {
    r.framed("Add battery"@, msg, error, ""@) && (r->page matches Page::Add(p) && p.shows(
        db,
        env,
        values,
    ))
}

pub fn page_add(
    db: &Db,
    env: &Dict<String>,
    msg: &str,
    error: &str,
    add_values: Vec<(String, FieldValue)>,
) -> (r: CommandResult)
    ensures
        is_add_page(r, *db, *env, msg@, error@, value_views(add_values@)),
{
    let p = AddPage {
        printer: printer_status(db, env),
        suggested_id: next_number_or_one(db),
        types: type_values(db),
        brands: brand_values(db),
        locations: location_values(db),
        top_locations: top_locations(db),
        print_on_add: get(db, env, "print_on_add").as_bool(),
        add_values,
    };
    page(Page::Add(p), "Add battery", msg, error, "")
}

// ── Scanning ────────────────────────────────────────────────────────────

/// The instrument, the procedure and the currents of the latest reading.
#[derive(Debug, Clone, Copy, PartialEq, Eq, Structural)]
pub struct LastUsed {
    pub instrument_id: Option<i64>,
    pub mode_id: Option<i64>,
    pub discharge_ma: Option<i64>,
    pub charge_ma: Option<i64>,
}

pub open spec fn last_used_in(ms: Seq<Measurement>) -> LastUsed {
    match latest_by_instrument(ms) {
        Some(m) => LastUsed {
            instrument_id: m.instrument_id,
            mode_id: m.mode_id,
            discharge_ma: m.discharge_ma,
            charge_ma: m.charge_ma,
        },
        None => LastUsed {
            instrument_id: None,
            mode_id: None,
            discharge_ma: None,
            charge_ma: None,
        },
    }
}

fn last_used(db: &Db) -> (r: LastUsed)
    ensures
        r == last_used_in(db.measurements@),
{
    let (instrument_id, mode_id, discharge_ma, charge_ma) = match db.last_reading_defaults() {
        Ok(d) => d,
        Err(_) => (None, None, None, None),
    };
    LastUsed { instrument_id, mode_id, discharge_ma, charge_ma }
}

#[derive(Debug)]
pub struct ScanPage {
    pub today: String,
    pub instruments: Vec<InstrumentChoice>,
    pub last_used: LastUsed,
    pub locations: Vec<String>,
    pub top_locations: Vec<String>,
}

impl ScanPage {
    pub open spec fn shows(&self, db: Db, today: Seq<char>) -> bool {
        &&& self.today@ == today
        &&& are_choices(self.instruments@, db)
        &&& self.last_used == last_used_in(db.measurements@)
        &&& self.locations@ == column_values(db, Column::Location)
        &&& self.top_locations@ == usual_locations(db)
    }
}

pub fn page_scan(db: &Db, today: &str, msg: &str, error: &str) -> (r: CommandResult)
    ensures
        r.framed("Scan"@, msg@, error@, ""@),
        r->page matches Page::Scan(p) && p.shows(*db, today@),
{
    let p = ScanPage {
        today: today.to_string(),
        instruments: instrument_choices(db),
        last_used: last_used(db),
        locations: location_values(db),
        top_locations: top_locations(db),
    };
    page(Page::Scan(p), "Scan", msg, error, "")
}

// ── Printing labels ─────────────────────────────────────────────────────

/// What a list of ids comes to before it is printed.
#[derive(Debug)]
pub struct PrintPreview {
    pub resolved: Vec<Battery>,
    pub missing: Vec<i64>,
    pub deleted: Vec<i64>,
}

#[derive(Debug)]
pub struct PrintPage {
    pub print_spec: String,
    pub preview: Option<PrintPreview>,
}

pub open spec fn is_print_page(
    r: CommandResult,
    msg: Seq<char>,
    error: Seq<char>,
    typed: Seq<char>,
    preview: Option<PrintPreview>,
) -> bool {
    r.framed("Print labels"@, msg, error, ""@) && (r->page matches Page::Print(p)
        && p.print_spec@ == typed && p.preview == preview)
}

pub fn page_print(msg: &str, error: &str, typed: &str, preview: Option<PrintPreview>) -> (r:
    CommandResult)
    ensures
        is_print_page(r, msg@, error@, typed@, preview),
{
    page(
        Page::Print(PrintPage { print_spec: typed.to_string(), preview }),
        "Print labels",
        msg,
        error,
        "",
    )
}

// ── Instruments ─────────────────────────────────────────────────────────

/// The form that is open on the page of instruments, with what was wrong and
/// what was typed.
#[derive(Debug)]
pub enum InstrumentForm {
    Closed,
    AddInstrument { error: String, values: Vec<(String, FieldValue)> },
    EditInstrument { id: i64, error: String, values: Vec<(String, FieldValue)> },
    AddMode {
        instrument_id: i64,
        error: String,
        values: Vec<(String, FieldValue)>,
        fields: FieldFlags,
    },
    EditMode {
        id: i64,
        instrument_id: i64,
        error: String,
        values: Vec<(String, FieldValue)>,
    },
}

#[derive(Debug)]
pub struct InstrumentsPage {
    pub instruments: Vec<EditableInstrument>,
    pub form: InstrumentForm,
}

pub open spec fn is_instruments_page(
    r: CommandResult,
    db: Db,
    msg: Seq<char>,
    error: Seq<char>,
    form: InstrumentForm,
) -> bool {
    r.framed("Instruments"@, msg, error, ""@) && (r->page matches Page::Instruments(p)
        && are_editable(p.instruments@, db) && p.form == form)
}

pub fn page_instruments(db: &Db, msg: &str, error: &str, form: InstrumentForm) -> (r: CommandResult)
    ensures
        is_instruments_page(r, *db, msg@, error@, form),
{
    page(
        Page::Instruments(InstrumentsPage { instruments: editable_instruments(db), form }),
        "Instruments",
        msg,
        error,
        "",
    )
}

// ── Settings ────────────────────────────────────────────────────────────

#[derive(Debug)]
pub struct SettingsPage {
    pub settings: Vec<Section>,
}

pub open spec fn is_settings_page(
    r: CommandResult,
    db: Db,
    env: Dict<String>,
    msg: Seq<char>,
    error: Seq<char>,
) -> bool {
    r.framed("Settings"@, msg, error, ""@) && (r->page matches Page::Settings(p) && views_of(
        p.settings@,
    ) == sections_of(group_list(), setting_list(), db@.settings, env))
}

pub fn page_settings(db: &Db, env: &Dict<String>, msg: &str, error: &str) -> (r: CommandResult)
    ensures
        is_settings_page(r, *db, *env, msg@, error@),
{
    page(
        Page::Settings(SettingsPage { settings: overview(db, env) }),
        "Settings",
        msg,
        error,
        "",
    )
}

// ── Readings of several batteries ───────────────────────────────────────

/// How many rows the form for readings has, and the one for purchases.
pub const SLOT_ROWS: u8 = 16;

pub const BOUGHT_ROWS: u8 = 10;

/// A row of the form, as it was typed.
#[derive(Debug)]
pub struct SlotRow {
    pub i: u8,
    pub battery_id: String,
    pub capacity_mah: String,
    pub ir_mohm: String,
    pub discharge_ma: String,
    pub charge_ma: String,
    pub notes: String,
}

#[derive(Debug)]
pub struct BoughtRow {
    pub i: u8,
    pub battery_id: String,
}

impl SlotRow {
    pub open spec fn shows(&self, fields: Dict<String>, i: int) -> bool {
        &&& self.i == i
        &&& self.battery_id@ == row_field(fields, "battery_id"@, i)
        &&& self.capacity_mah@ == row_field(fields, "capacity_mah"@, i)
        &&& self.ir_mohm@ == row_field(fields, "ir_mohm"@, i)
        &&& self.discharge_ma@ == row_field(fields, "discharge_ma"@, i)
        &&& self.charge_ma@ == row_field(fields, "charge_ma"@, i)
        &&& self.notes@ == row_field(fields, "notes"@, i)
    }
}

impl BoughtRow {
    pub open spec fn shows(&self, fields: Dict<String>, i: int) -> bool {
        self.i == i && self.battery_id@ == row_field(fields, "battery_id"@, i)
    }
}

fn slot_row(fields: &Dict<String>, i: u8) -> (r: SlotRow)
    ensures
        r.shows(*fields, i as int),
{
    SlotRow {
        i,
        battery_id: get_row_str(fields, "battery_id", i).to_string(),
        capacity_mah: get_row_str(fields, "capacity_mah", i).to_string(),
        ir_mohm: get_row_str(fields, "ir_mohm", i).to_string(),
        discharge_ma: get_row_str(fields, "discharge_ma", i).to_string(),
        charge_ma: get_row_str(fields, "charge_ma", i).to_string(),
        notes: get_row_str(fields, "notes", i).to_string(),
    }
}

fn slot_rows(fields: &Dict<String>) -> (r: Vec<SlotRow>)
    ensures
        r@.len() == SLOT_ROWS,
        forall|k: int| 0 <= k < SLOT_ROWS ==> (#[trigger] r@[k]).shows(*fields, k + 1),
{
    let mut out: Vec<SlotRow> = Vec::new();
    let mut i: u8 = 0;
    while i < SLOT_ROWS
        invariant
            i <= SLOT_ROWS,
            out@.len() == i,
            forall|k: int| 0 <= k < i ==> (#[trigger] out@[k]).shows(*fields, k + 1),
        decreases SLOT_ROWS - i,
    {
        out.push(slot_row(fields, i + 1));
        i = i + 1;
    }
    out
}

fn bought_rows(fields: &Dict<String>) -> (r: Vec<BoughtRow>)
    ensures
        r@.len() == BOUGHT_ROWS,
        forall|k: int| 0 <= k < BOUGHT_ROWS ==> (#[trigger] r@[k]).shows(*fields, k + 1),
{
    let mut out: Vec<BoughtRow> = Vec::new();
    let mut i: u8 = 0;
    while i < BOUGHT_ROWS
        invariant
            i <= BOUGHT_ROWS,
            out@.len() == i,
            forall|k: int| 0 <= k < i ==> (#[trigger] out@[k]).shows(*fields, k + 1),
        decreases BOUGHT_ROWS - i,
    {
        out.push(
            BoughtRow {
                i: i + 1,
                battery_id: get_row_str(fields, "battery_id", i + 1).to_string(),
            },
        );
        i = i + 1;
    }
    out
}

#[derive(Debug)]
pub struct BatchMeasurePage {
    pub today: String,
    pub instruments: Vec<InstrumentChoice>,
    pub common: Vec<(String, FieldValue)>,
    pub slot_rows: Vec<SlotRow>,
    pub bought_rows: Vec<BoughtRow>,
}

impl BatchMeasurePage {
    /// The page shows every row as it was typed.
    pub open spec fn shows(&self, db: Db, today: Seq<char>, fields: Dict<String>) -> bool {
        &&& self.today@ == today
        &&& are_choices(self.instruments@, db)
        &&& value_views(self.common@) == values_of(fields)
        &&& self.slot_rows@.len() == SLOT_ROWS
        &&& forall|k: int|
            0 <= k < SLOT_ROWS ==> (#[trigger] self.slot_rows@[k]).shows(fields, k + 1)
        &&& self.bought_rows@.len() == BOUGHT_ROWS
        &&& forall|k: int|
            0 <= k < BOUGHT_ROWS ==> (#[trigger] self.bought_rows@[k]).shows(fields, k + 1)
    }
}

pub open spec fn is_batch_measure_page(
    r: CommandResult,
    db: Db,
    today: Seq<char>,
    msg: Seq<char>,
    error: Seq<char>,
    fields: Dict<String>,
) -> bool {
    r.framed("Batch add reading"@, msg, error, ""@) && (r->page matches Page::BatchMeasure(p)
        && p.shows(db, today, fields))
}

/// The same page without anything typed on it.
pub open spec fn is_empty_batch_page(
    r: CommandResult,
    db: Db,
    today: Seq<char>,
    msg: Seq<char>,
    error: Seq<char>,
) -> bool {
    exists|fields: Dict<String>|
        fields.key_list().len() == 0 && (forall|k: Seq<char>| #[trigger] fields.spec_get(k) is None)
            && #[trigger] is_batch_measure_page(r, db, today, msg, error, fields)
}

pub fn page_batch_measure(
    db: &Db,
    today: &str,
    msg: &str,
    error: &str,
    fields: &Dict<String>,
) -> (r: CommandResult)
    ensures
        is_batch_measure_page(r, *db, today@, msg@, error@, *fields),
{
    let p = BatchMeasurePage {
        today: today.to_string(),
        instruments: instrument_choices(db),
        common: fields_to_value(fields),
        slot_rows: slot_rows(fields),
        bought_rows: bought_rows(fields),
    };
    page(Page::BatchMeasure(p), "Batch add reading", msg, error, "")
}

pub fn page_batch_measure_empty(db: &Db, today: &str, msg: &str, error: &str) -> (r: CommandResult)
    ensures
        is_empty_batch_page(r, *db, today@, msg@, error@),
{
    let none: Dict<String> = Dict::new();
    page_batch_measure(db, today, msg, error, &none)
}

// ── Moving several batteries ────────────────────────────────────────────

#[derive(Debug)]
pub struct BatchLocationPage {
    pub locations: Vec<String>,
    pub top_locations: Vec<String>,
    pub id_spec: String,
    pub location: String,
}

pub open spec fn is_batch_location_page(
    r: CommandResult,
    db: Db,
    msg: Seq<char>,
    error: Seq<char>,
    typed: Seq<char>,
    location: Seq<char>,
) -> bool {
    r.framed("Batch change location"@, msg, error, ""@) && (r->page matches Page::BatchLocation(p)
        && p.locations@ == column_values(db, Column::Location) && p.top_locations@
        == usual_locations(db) && p.id_spec@ == typed && p.location@ == location)
}

pub fn page_batch_location(db: &Db, msg: &str, error: &str, typed: &str, location: &str) -> (r:
    CommandResult)
    ensures
        is_batch_location_page(r, *db, msg@, error@, typed@, location@),
{
    let p = BatchLocationPage {
        locations: location_values(db),
        top_locations: top_locations(db),
        id_spec: typed.to_string(),
        location: location.to_string(),
    };
    page(Page::BatchLocation(p), "Batch change location", msg, error, "")
}

// ── Matching ────────────────────────────────────────────────────────────

/// One battery of a suggestion.
#[derive(Debug)]
pub struct SuggestedRow {
    pub id: i64,
    pub cell_type: String,
    pub brand: String,
    pub nominal_mah: Option<i64>,
    pub capacity_mah: i64,
    pub ir_mohm: i64,
    pub ir_assumed: bool,
}

impl SuggestedRow {
    pub open spec fn shows(&self, c: Candidate) -> bool {
        &&& self.id == c.battery.id
        &&& self.cell_type@ == c.battery.cell_type@
        &&& self.brand@ == c.battery.brand@
        &&& self.nominal_mah == c.battery.nominal_mah
        &&& self.capacity_mah == c.capacity_mah
        &&& self.ir_mohm == c.ir_mohm
        &&& self.ir_assumed == c.ir_assumed
    }
}

#[derive(Debug)]
pub struct SuggestionPart {
    pub rows: Vec<SuggestedRow>,
    pub mixed: bool,
    pub count: usize,
}

/// What was typed into the form of the matching page.
#[derive(Debug)]
pub struct MatchRequest {
    pub match_type: String,
    pub match_count: String,
    pub match_draw: String,
    pub match_location: String,
}

#[verifier::ext_equal]
pub struct MatchRequestView {
    pub match_type: Seq<char>,
    pub match_count: Seq<char>,
    pub match_draw: Seq<char>,
    pub match_location: Seq<char>,
}

impl View for MatchRequest {
    type V = MatchRequestView;

    open spec fn view(&self) -> MatchRequestView {
        MatchRequestView {
            match_type: self.match_type@,
            match_count: self.match_count@,
            match_draw: self.match_draw@,
            match_location: self.match_location@,
        }
    }
}

/// What the form holds before anything is typed.
pub open spec fn no_request() -> MatchRequestView {
    MatchRequestView {
        match_type: ""@,
        match_count: ""@,
        match_draw: "low"@,
        match_location: ""@,
    }
}

pub fn empty_request() -> (r: MatchRequest)
    ensures
        r@ == no_request(),
{
    MatchRequest {
        match_type: "".to_string(),
        match_count: "".to_string(),
        match_draw: "low".to_string(),
        match_location: "".to_string(),
    }
}

#[derive(Debug)]
pub struct MatchPage {
    pub types: Vec<String>,
    pub locations: Vec<String>,
    pub top_locations: Vec<String>,
    pub pool_location: String,
    pub request: MatchRequest,
    pub suggestion: Option<SuggestionPart>,
}

/// The location of the pool.
pub open spec fn pool_of(db: Db, env: Dict<String>) -> Seq<char> {
    value_of(db@.settings, env, "pool_location"@).text()
}

pub fn pool_location(db: &Db, env: &Dict<String>) -> (r: String)
    ensures
        r@ == pool_of(*db, *env),
{
    get(db, env, "pool_location").as_text()
}

pub open spec fn is_match_page(
    r: CommandResult,
    db: Db,
    env: Dict<String>,
    msg: Seq<char>,
    error: Seq<char>,
    request: MatchRequestView,
    suggestion: Option<SuggestionPart>,
) -> bool {
    r.framed("Match batteries"@, msg, error, ""@) && (r->page matches Page::Match(p) && p.types@
        == column_values(db, Column::CellType) && p.locations@ == column_values(
        db,
        Column::Location,
    ) && p.top_locations@ == usual_locations(db) && p.pool_location@ == pool_of(db, env)
        && p.request@ == request && p.suggestion == suggestion)
}

pub fn page_match(
    db: &Db,
    env: &Dict<String>,
    msg: &str,
    error: &str,
    request: MatchRequest,
    suggestion: Option<SuggestionPart>,
) -> (r: CommandResult)
    ensures
        is_match_page(r, *db, *env, msg@, error@, request@, suggestion),
{
    let p = MatchPage {
        types: type_values(db),
        locations: location_values(db),
        top_locations: top_locations(db),
        pool_location: pool_location(db, env),
        request,
        suggestion,
    };
    page(Page::Match(p), "Match batteries", msg, error, "")
}

#[derive(Debug)]
pub struct MatchLogPage {
    pub matches: Vec<Match>,
    pub pool_location: String,
}

pub fn page_match_log(db: &Db, env: &Dict<String>, msg: &str, error: &str) -> (r: CommandResult)
    ensures
        r.framed("Match log"@, msg@, error@, ""@),
        r->page matches Page::MatchLog(p) && views_of(p.matches@) == db@.matches.reverse()
            && p.pool_location@ == pool_of(*db, *env),
{
    let matches = match db.list_matches() {
        Ok(v) => v,
        Err(_) => Vec::new(),
    };
    let p = MatchLogPage { matches, pool_location: pool_location(db, env) };
    page(Page::MatchLog(p), "Match log", msg, error, "")
}

// ── One battery ─────────────────────────────────────────────────────────

/// What the form for a reading starts with: what was used last, or what was
/// typed.
#[derive(Debug)]
pub enum MeasureForm {
    Last(LastUsed),
    Typed(Vec<(String, FieldValue)>),
}

#[derive(Debug)]
pub struct DetailPage {
    pub battery: Battery,
    pub will_hard_delete: bool,
    pub can_purge: bool,
    pub prev: Option<i64>,
    pub next: Option<i64>,
    pub tab: String,
    pub condition: Condition,
    pub history: Vec<LocationEntry>,
    pub readings: Vec<ReadingRow>,
    pub instruments: Vec<InstrumentChoice>,
    pub today: String,
    pub types: Vec<String>,
    pub brands: Vec<String>,
    pub locations: Vec<String>,
    pub top_locations: Vec<String>,
    pub measure_error: String,
    pub measure: MeasureForm,
}

impl DetailPage {
    /// The page shows everything about a battery.
    pub open spec fn shows(&self, db: Db, env: Dict<String>, battery: Battery, today: Seq<char>) -> bool {
        let ms = readings(db.measurements@, battery.id);
        &&& self.battery == battery
        &&& self.prev == number_below(db.batteries@, battery.id)
        &&& self.next == number_above(db.batteries@, battery.id)
        &&& exists|limits: Dict<i64>| #[trigger]
            are_limits(limits, db@.settings, env) && self.condition.describes(
                battery,
                ms,
                limits,
                Some(health_limit_of(db, env)),
                names_of(db),
            )
        &&& self.history@ == moves(db.history@, battery.id)
        &&& self.readings@.len() == ms.len()
        &&& forall|i: int|
            0 <= i < ms.len() ==> (#[trigger] self.readings@[i]).shows(
                ms[i],
                names_of(db),
                mode_names_of(db),
            )
        &&& are_choices(self.instruments@, db)
        &&& self.today@ == today
        &&& self.types@ == column_values(db, Column::CellType)
        &&& self.brands@ == column_values(db, Column::Brand)
        &&& self.locations@ == column_values(db, Column::Location)
        &&& self.top_locations@ == usual_locations(db)
    }
}

fn reading_rows(
    ms: &Vec<Measurement>,
    names: &HashMap<i64, String>,
    modes: &HashMap<i64, String>,
) -> (r: Vec<ReadingRow>)
    ensures
        r@.len() == ms@.len(),
        forall|i: int| 0 <= i < ms@.len() ==> (#[trigger] r@[i]).shows(ms@[i], names@, modes@),
{
    let mut out: Vec<ReadingRow> = Vec::new();
    let mut i: usize = 0;
    while i < ms.len()
        invariant
            i <= ms@.len(),
            out@.len() == i,
            forall|j: int| 0 <= j < i ==> (#[trigger] out@[j]).shows(ms@[j], names@, modes@),
        decreases ms@.len() - i,
    {
        out.push(reading_row(&ms[i], names, modes));
        i = i + 1;
    }
    out
}

fn condition_of(db: &Db, env: &Dict<String>, battery: &Battery, ms: &Vec<Measurement>) -> (r:
    Condition)
    ensures
        exists|limits: Dict<i64>| #[trigger]
            are_limits(limits, db@.settings, *env) && r.describes(
                *battery,
                ms@,
                limits,
                Some(health_limit_of(*db, *env)),
                names_of(*db),
            ),
{
    let limits = ir_limits(db, env);
    let names = instrument_names(db);
    let health_limit = get(db, env, "health_limit_pct").as_i64();
    condition_view(battery, ms, &limits, Some(health_limit), &names)
}

fn detail(
    db: &Db,
    env: &Dict<String>,
    battery: Battery,
    today: &str,
    tab: &str,
    measure_error: &str,
    measure: MeasureForm,
) -> (r: DetailPage)
    ensures
        r.shows(*db, *env, battery, today@),
        r.will_hard_delete == (battery.id == highest_number(*db) && readings(
            db.measurements@,
            battery.id,
        ).len() == 0),
        r.can_purge == (battery.deleted_at is Some && readings(
            db.measurements@,
            battery.id,
        ).len() == 0),
        r.tab@ == tab@,
        r.measure_error@ == measure_error@,
        r.measure == measure,
{
    let ms = match db.measurements(battery.id) {
        Ok(v) => v,
        Err(_) => Vec::new(),
    };
    let history = match db.history(battery.id) {
        Ok(v) => v,
        Err(_) => Vec::new(),
    };
    let (prev, next) = match db.adjacent_ids(battery.id) {
        Ok(p) => p,
        Err(_) => (None, None),
    };
    let condition = condition_of(db, env, &battery, &ms);
    let rows = reading_rows(&ms, &instrument_names(db), &mode_names(db));
    let unmeasured = ms.len() == 0;
    DetailPage {
        will_hard_delete: battery.id == highest_id(db) && unmeasured,
        can_purge: battery.deleted_at.is_some() && unmeasured,
        prev,
        next,
        tab: tab.to_string(),
        condition,
        history,
        readings: rows,
        instruments: instrument_choices(db),
        today: today.to_string(),
        types: type_values(db),
        brands: brand_values(db),
        locations: location_values(db),
        top_locations: top_locations(db),
        measure_error: measure_error.to_string(),
        measure,
        battery,
    }
}

/// The page of a battery, with the form for a reading filled in as it was last
/// used.
pub open spec fn is_detail_page(
    r: CommandResult,
    db: Db,
    env: Dict<String>,
    id: i64,
    today: Seq<char>,
    tab: Seq<char>,
    dialog: Seq<char>,
    msg: Seq<char>,
    error: Seq<char>,
) -> bool {
    match row(db.batteries@, id) {
        None => is_missing(r, id),
        Some(b) => {
            let unmeasured = readings(db.measurements@, b.id).len() == 0;
            r.framed("Battery "@ + pad3_text(id as int), msg, error, dialog) && (
            r->page matches Page::Detail(p) && p.shows(db, env, b, today) && p.will_hard_delete == (
            b.id == highest_number(db) && unmeasured) && p.can_purge == (b.deleted_at is Some
                && unmeasured) && p.tab@ == tab && p.measure_error@ == ""@ && p.measure
                == MeasureForm::Last(last_used_in(db.measurements@)))
        },
    }
}

pub fn page_detail(
    db: &Db,
    env: &Dict<String>,
    id: i64,
    today: &str,
    tab: &str,
    dialog: &str,
    msg: &str,
    error: &str,
) -> (r: CommandResult)
    ensures
        is_detail_page(r, *db, *env, id, today@, tab@, dialog@, msg@, error@),
{
    let battery = match db.get(id) {
        Ok(Some(b)) => b,
        _ => return missing_battery(id),
    };
    let measure = MeasureForm::Last(last_used(db));
    let p = detail(db, env, battery, today, tab, "", measure);
    let mut title = "Battery ".to_string();
    title.append(pad3(id).as_str());
    page(Page::Detail(p), title.as_str(), msg, error, dialog)
}

/// The page of a battery after a reading was refused: its dialog is open, says
/// what was wrong, and holds what was typed.
pub open spec fn is_measure_again_page(
    r: CommandResult,
    db: Db,
    env: Dict<String>,
    id: i64,
    today: Seq<char>,
    error: Seq<char>,
    fields: Dict<String>,
) -> bool {
    match row(db.batteries@, id) {
        None => is_missing(r, id),
        Some(b) => r.framed("Battery "@ + pad3_text(id as int), ""@, ""@, "measure"@) && (
        r->page matches Page::Detail(p) && p.shows(db, env, b, today) && !p.will_hard_delete
            && !p.can_purge && p.tab@ == ""@ && p.measure_error@ == error && (
        p.measure matches MeasureForm::Typed(v) && value_views(v@) == values_of(fields))),
    }
}

pub fn page_detail_with_measure_error(
    db: &Db,
    env: &Dict<String>,
    id: i64,
    today: &str,
    error: &str,
    fields: &Dict<String>,
) -> (r: CommandResult)
    ensures
        is_measure_again_page(r, *db, *env, id, today@, error@, *fields),
{
    let battery = match db.get(id) {
        Ok(Some(b)) => b,
        _ => return missing_battery(id),
    };
    let measure = MeasureForm::Typed(fields_to_value(fields));
    let mut p = detail(db, env, battery, today, "", error, measure);
    p.will_hard_delete = false;
    p.can_purge = false;
    let mut title = "Battery ".to_string();
    title.append(pad3(id).as_str());
    page(Page::Detail(p), title.as_str(), "", "", "measure")
}

} // verus!
