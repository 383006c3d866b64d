//! What is kept about the batteries: the tables, and what always holds of
//! them.
//!
//! The tables live in memory. Reading and changing them is the library's
//! work; loading them from a file and putting them back is its caller's.

use vstd::prelude::*;
use vstd::string::*;
use crate::rows::{
    Battery, BatteryView, InstrumentRow, InstrumentRowView, LocationEntry, LocationEntryView,
    Match, MatchView, Measurement, MeasurementView, Mode, ModeView, Setting, SettingView,
};
use crate::select::{kept, Duplicate, Test};
use crate::text::same;

verus! {

// ── Rows ────────────────────────────────────────────────────────────────

/// A row with a number of its own.
pub trait Keyed {
    spec fn key(&self) -> i64;
}

/// A row whose number can be read.
pub trait Row: Keyed {
    fn number(&self) -> (r: i64)
        ensures
            r == self.key(),
    ;
}

impl Keyed for Battery {
    open spec fn key(&self) -> i64 {
        self.id
    }
}

impl Keyed for BatteryView {
    open spec fn key(&self) -> i64 {
        self.id
    }
}

impl Row for Battery {
    fn number(&self) -> (r: i64) {
        self.id
    }
}

impl Keyed for LocationEntry {
    open spec fn key(&self) -> i64 {
        self.id
    }
}

impl Keyed for LocationEntryView {
    open spec fn key(&self) -> i64 {
        self.id
    }
}

impl Row for LocationEntry {
    fn number(&self) -> (r: i64) {
        self.id
    }
}

impl Keyed for Measurement {
    open spec fn key(&self) -> i64 {
        self.id
    }
}

impl Keyed for MeasurementView {
    open spec fn key(&self) -> i64 {
        self.id
    }
}

impl Row for Measurement {
    fn number(&self) -> (r: i64) {
        self.id
    }
}

impl Keyed for InstrumentRow {
    open spec fn key(&self) -> i64 {
        self.id
    }
}

impl Keyed for InstrumentRowView {
    open spec fn key(&self) -> i64 {
        self.id
    }
}

impl Row for InstrumentRow {
    fn number(&self) -> (r: i64) {
        self.id
    }
}

impl Keyed for Mode {
    open spec fn key(&self) -> i64 {
        self.id
    }
}

impl Keyed for ModeView {
    open spec fn key(&self) -> i64 {
        self.id
    }
}

impl Row for Mode {
    fn number(&self) -> (r: i64) {
        self.id
    }
}

impl Keyed for Match {
    open spec fn key(&self) -> i64 {
        self.id
    }
}

impl Keyed for MatchView {
    open spec fn key(&self) -> i64 {
        self.id
    }
}

impl Row for Match {
    fn number(&self) -> (r: i64) {
        self.id
    }
}

/// Where the first row with a number stands, from a place on; behind the last
/// row if there is none.
pub open spec fn at<T: Keyed>(rows: Seq<T>, id: i64, from: int) -> int
    decreases rows.len() - from,
{
    if from >= rows.len() {
        rows.len() as int
    } else if rows[from].key() == id {
        from
    } else {
        at(rows, id, from + 1)
    }
}

/// The row with a number.
pub open spec fn row<T: Keyed>(rows: Seq<T>, id: i64) -> Option<T> {
    if at(rows, id, 0) < rows.len() {
        Some(rows[at(rows, id, 0)])
    } else {
        None
    }
}

pub open spec fn present<T: Keyed>(rows: Seq<T>, id: i64) -> bool {
    at(rows, id, 0) < rows.len()
}

pub proof fn lemma_at<T: Keyed>(rows: Seq<T>, id: i64, from: int)
    requires
        0 <= from <= rows.len(),
    ensures
        from <= at(rows, id, from) <= rows.len(),
        at(rows, id, from) < rows.len() ==> rows[at(rows, id, from)].key() == id,
        forall|i: int| from <= i < at(rows, id, from) ==> (#[trigger] rows[i]).key() != id,
    decreases rows.len() - from,
{
    if from < rows.len() && rows[from].key() != id {
        lemma_at(rows, id, from + 1);
    }
}

/// A row is there exactly where some row has its number.
pub proof fn lemma_has<T: Keyed>(rows: Seq<T>, id: i64)
    ensures
        present(rows, id) <==> exists|i: int| 0 <= i < rows.len() && (#[trigger] rows[i]).key() == id,
{
    lemma_at(rows, id, 0);
}

/// The views of some rows.
pub open spec fn views_of<T: View>(rows: Seq<T>) -> Seq<T::V> {
    rows.map_values(|t: T| t@)
}

pub proof fn lemma_views<T: View>(rows: Seq<T>)
    ensures
        views_of(rows).len() == rows.len(),
        forall|i: int| 0 <= i < rows.len() ==> #[trigger] views_of(rows)[i] == rows[i]@,
{
}

pub proof fn lemma_views_push<T: View>(rows: Seq<T>, x: T)
    ensures
        views_of(rows.push(x)) == views_of(rows).push(x@),
{
    assert(views_of(rows.push(x)) =~= views_of(rows).push(x@));
}

pub proof fn lemma_views_update<T: View>(rows: Seq<T>, i: int, x: T)
    requires
        0 <= i < rows.len(),
    ensures
        views_of(rows.update(i, x)) == views_of(rows).update(i, x@),
{
    assert(views_of(rows.update(i, x)) =~= views_of(rows).update(i, x@));
}

/// Rows and their views have the same numbers in the same places.
pub proof fn lemma_views_at<V: Keyed, T: Keyed + View<V = V>>(rows: Seq<T>, id: i64, from: int)
    requires
        0 <= from,
        forall|t: T| #[trigger] t@.key() == t.key(),
    ensures
        at(views_of(rows), id, from) == at(rows, id, from),
    decreases rows.len() - from,
{
    if from < rows.len() {
        assert(views_of(rows)[from] == rows[from]@);
        lemma_views_at(rows, id, from + 1);
    }
}

/// Keeping rows and keeping their views comes to the same.
pub proof fn lemma_kept_views<T: View, P: Test<T>>(p: P, rows: Seq<T>, f: spec_fn(T::V) -> bool)
    requires
        forall|x: T| #[trigger] p.holds(x) == f(x@),
    ensures
        views_of(kept(p, rows)) == views_of(rows).filter(f),
    decreases rows.len(),
{
    reveal(Seq::filter);
    if rows.len() > 0 {
        let d = rows.drop_last();
        lemma_kept_views(p, d, f);
        assert(views_of(rows).drop_last() =~= views_of(d));
        assert(views_of(rows).last() == rows.last()@);
        if p.holds(rows.last()) {
            lemma_views_push(kept(p, d), rows.last());
        }
    } else {
        assert(views_of(kept(p, rows)) =~= views_of(rows).filter(f));
    }
}

pub fn find<T: Row>(rows: &Vec<T>, id: i64) -> (r: Option<usize>)
    ensures
        match r {
            Some(i) => i == at(rows@, id, 0) && i < rows@.len(),
            None => at(rows@, id, 0) == rows@.len(),
        },
{
    let mut i: usize = 0;
    while i < rows.len()
        invariant
            i <= rows@.len(),
            at(rows@, id, 0) == at(rows@, id, i as int),
        decreases rows@.len() - i,
    {
        if rows[i].number() == id {
            return Some(i);
        }
        i = i + 1;
    }
    None
}

// ── The tables ──────────────────────────────────────────────────────────

/// All tables, and for those whose rows are numbered as they come, the last
/// number that was given out.
#[derive(Debug)]
pub struct Db {
    pub batteries: Vec<Battery>,
    pub history: Vec<LocationEntry>,
    pub measurements: Vec<Measurement>,
    pub instruments: Vec<InstrumentRow>,
    pub modes: Vec<Mode>,
    pub matches: Vec<Match>,
    pub settings: Vec<Setting>,
    pub last_history: i64,
    pub last_measurement: i64,
    pub last_instrument: i64,
    pub last_mode: i64,
    pub last_match: i64,
}

#[verifier::ext_equal]
pub struct DbView {
    pub batteries: Seq<BatteryView>,
    pub history: Seq<LocationEntryView>,
    pub measurements: Seq<MeasurementView>,
    pub instruments: Seq<InstrumentRowView>,
    pub modes: Seq<ModeView>,
    pub matches: Seq<MatchView>,
    pub settings: Seq<SettingView>,
    pub last_history: i64,
    pub last_measurement: i64,
    pub last_instrument: i64,
    pub last_mode: i64,
    pub last_match: i64,
}

impl View for Db {
    type V = DbView;

    open spec fn view(&self) -> DbView {
        DbView {
            batteries: views_of(self.batteries@),
            history: views_of(self.history@),
            measurements: views_of(self.measurements@),
            instruments: views_of(self.instruments@),
            modes: views_of(self.modes@),
            matches: views_of(self.matches@),
            settings: views_of(self.settings@),
            last_history: self.last_history,
            last_measurement: self.last_measurement,
            last_instrument: self.last_instrument,
            last_mode: self.last_mode,
            last_match: self.last_match,
        }
    }
}

/// Numbers stand at most once in a table.
pub open spec fn distinct_keys<T: Keyed>(rows: Seq<T>) -> bool {
    forall|i: int, j: int|
        0 <= i < j < rows.len() ==> (#[trigger] rows[i]).key() != (#[trigger] rows[j]).key()
}

/// No row has a number above the last one that was given out.
pub open spec fn keys_given<T: Keyed>(rows: Seq<T>, last: i64) -> bool {
    forall|i: int| 0 <= i < rows.len() ==> (#[trigger] rows[i]).key() <= last
}

pub open spec fn bought(m: MeasurementView) -> bool {
    m.kind == "bought"@
}

impl DbView {
    /// Every entry of the location history is of a battery that is there.
    pub open spec fn history_linked(self) -> bool {
        forall|i: int|
            0 <= i < self.history.len() ==> present(self.batteries, (#[trigger] self.history[i]).battery_id)
    }

    /// Every reading is of a battery that is there, and by an instrument and a
    /// procedure that are, or by none.
    pub open spec fn measurements_linked(self) -> bool {
        forall|i: int|
            0 <= i < self.measurements.len() ==> {
                let m = #[trigger] self.measurements[i];
                &&& present(self.batteries, m.battery_id)
                &&& m.instrument_id matches Some(k) ==> present(self.instruments, k)
                &&& m.mode_id matches Some(k) ==> present(self.modes, k)
            }
    }

    /// Every procedure is one of an instrument that is there.
    pub open spec fn modes_linked(self) -> bool {
        forall|i: int|
            0 <= i < self.modes.len() ==> present(self.instruments, (#[trigger] self.modes[i]).instrument_id)
    }

    /// Every member of a match is a battery that is there.
    pub open spec fn matches_linked(self) -> bool {
        forall|i: int, j: int|
            0 <= i < self.matches.len() && 0 <= j < self.matches[i].battery_ids.len() ==> present(
                self.batteries,
                #[trigger] self.matches[i].battery_ids[j],
            )
    }

    /// A battery was bought at most once.
    pub open spec fn bought_once(self) -> bool {
        forall|i: int, j: int|
            0 <= i < j < self.measurements.len() && bought(#[trigger] self.measurements[i]) && bought(
                #[trigger] self.measurements[j],
            ) ==> self.measurements[i].battery_id != self.measurements[j].battery_id
    }

    pub open spec fn settings_distinct(self) -> bool {
        forall|i: int, j: int|
            0 <= i < j < self.settings.len() ==> (#[trigger] self.settings[i]).key != (
            #[trigger] self.settings[j]).key
    }

    /// What holds of the tables whatever is done to them.
    pub open spec fn wf(self) -> bool {
        &&& distinct_keys(self.batteries)
        &&& distinct_keys(self.history)
        &&& distinct_keys(self.measurements)
        &&& distinct_keys(self.instruments)
        &&& distinct_keys(self.modes)
        &&& distinct_keys(self.matches)
        &&& keys_given(self.history, self.last_history)
        &&& keys_given(self.measurements, self.last_measurement)
        &&& keys_given(self.instruments, self.last_instrument)
        &&& keys_given(self.modes, self.last_mode)
        &&& keys_given(self.matches, self.last_match)
        &&& self.settings_distinct()
        &&& self.history_linked()
        &&& self.measurements_linked()
        &&& self.modes_linked()
        &&& self.matches_linked()
        &&& self.bought_once()
    }
}

pub open spec fn empty_tables() -> DbView {
    DbView {
        batteries: Seq::empty(),
        history: Seq::empty(),
        measurements: Seq::empty(),
        instruments: Seq::empty(),
        modes: Seq::empty(),
        matches: Seq::empty(),
        settings: Seq::empty(),
        last_history: 0,
        last_measurement: 0,
        last_instrument: 0,
        last_mode: 0,
        last_match: 0,
    }
}

/// Rows that are the same as the given ones.
pub fn duplicate_all<T: Duplicate>(rows: &Vec<T>) -> (r: Vec<T>)
    ensures
        r@ == rows@,
{
    let mut out: Vec<T> = Vec::new();
    let mut i: usize = 0;
    while i < rows.len()
        invariant
            i <= rows@.len(),
            out@ == rows@.take(i as int),
        decreases rows@.len() - i,
    {
        out.push(rows[i].duplicate());
        assert(out@ =~= rows@.take(i + 1));
        i = i + 1;
    }
    assert(rows@.take(rows@.len() as int) =~= rows@);
    out
}

pub fn clone_matches(rows: &Vec<Match>) -> (r: Vec<Match>)
    ensures
        views_of(r@) == views_of(rows@),
{
    let mut out: Vec<Match> = Vec::new();
    let mut i: usize = 0;
    assert(views_of(out@) =~= views_of(rows@).take(0));
    while i < rows.len()
        invariant
            i <= rows@.len(),
            views_of(out@) == views_of(rows@).take(i as int),
        decreases rows@.len() - i,
    {
        let m = rows[i].clone();
        proof {
            lemma_views_push(out@, m);
        }
        out.push(m);
        assert(views_of(out@) =~= views_of(rows@).take(i + 1));
        i = i + 1;
    }
    assert(views_of(rows@).take(rows@.len() as int) =~= views_of(rows@));
    out
}

impl Duplicate for Setting {
    fn duplicate(&self) -> (r: Self) {
        self.clone()
    }
}

impl Clone for Db {
    fn clone(&self) -> (r: Self)
        ensures
            r@ == self@,
            r.batteries@ == self.batteries@,
            r.history@ == self.history@,
            r.measurements@ == self.measurements@,
            r.instruments@ == self.instruments@,
            r.modes@ == self.modes@,
            r.settings@ == self.settings@,
    {
        Db {
            batteries: duplicate_all(&self.batteries),
            history: duplicate_all(&self.history),
            measurements: duplicate_all(&self.measurements),
            instruments: duplicate_all(&self.instruments),
            modes: duplicate_all(&self.modes),
            matches: clone_matches(&self.matches),
            settings: duplicate_all(&self.settings),
            last_history: self.last_history,
            last_measurement: self.last_measurement,
            last_instrument: self.last_instrument,
            last_mode: self.last_mode,
            last_match: self.last_match,
        }
    }
}

impl Db {
    /// Tables with nothing in them.
    pub fn new() -> (r: Self)
        ensures
            r@ == empty_tables(),
            r@.wf(),
    {
        let r = Db {
            batteries: Vec::new(),
            history: Vec::new(),
            measurements: Vec::new(),
            instruments: Vec::new(),
            modes: Vec::new(),
            matches: Vec::new(),
            settings: Vec::new(),
            last_history: 0,
            last_measurement: 0,
            last_instrument: 0,
            last_mode: 0,
            last_match: 0,
        };
        assert(r@ =~= empty_tables());
        r
    }
}

// ── Errors ──────────────────────────────────────────────────────────────

/// Why a change was not made.
#[derive(Debug)]
pub enum DbError {
    /// A battery with that number is there already.
    Duplicate,
    /// A row that is referred to is not there.
    ForeignKey,
    /// There is no number left to give to a new row.
    Full,
    /// What was asked for makes no sense, for the reason given.
    Invalid(String),
}

pub enum DbErrorView {
    Duplicate,
    ForeignKey,
    Full,
    Invalid(Seq<char>),
}

impl View for DbError {
    type V = DbErrorView;

    open spec fn view(&self) -> DbErrorView {
        match self {
            DbError::Duplicate => DbErrorView::Duplicate,
            DbError::ForeignKey => DbErrorView::ForeignKey,
            DbError::Full => DbErrorView::Full,
            DbError::Invalid(why) => DbErrorView::Invalid(why@),
        }
    }
}

pub type DbResult<T> = Result<T, DbError>;

impl DbErrorView {
    pub open spec fn text(self) -> Seq<char> {
        match self {
            DbErrorView::Duplicate => "UNIQUE constraint failed: batteries.id"@,
            DbErrorView::ForeignKey => "FOREIGN KEY constraint failed"@,
            DbErrorView::Full => "database or disk is full"@,
            DbErrorView::Invalid(why) => "Invalid parameter name: "@ + why,
        }
    }
}

impl DbError {
    /// The error in words.
    pub fn message(&self) -> (r: String)
        ensures
            r@ == self@.text(),
    {
        match self {
            DbError::Duplicate => "UNIQUE constraint failed: batteries.id".to_string(),
            DbError::ForeignKey => "FOREIGN KEY constraint failed".to_string(),
            DbError::Full => "database or disk is full".to_string(),
            DbError::Invalid(why) => {
                let mut m = "Invalid parameter name: ".to_string();
                m.append(why.as_str());
                m
            },
        }
    }
}

impl Db {
    /// Takes several steps as one: where they end in an error, the tables are as
    /// they were before the first of them.
    pub fn atomically<T, F: FnOnce(Db) -> (Db, DbResult<T>)>(&mut self, steps: F) -> (r: DbResult<T>)
        requires
            forall|d: Db| #[trigger] d@ == old(self)@ ==> steps.requires((d,)),
        ensures
            match r {
                Ok(v) => exists|d: Db, e: Db|
                    d@ == old(self)@ && final(self)@ == e@ && #[trigger] steps.ensures(
                        (d,),
                        (e, Ok::<T, DbError>(v)),
                    ),
                Err(e) => *final(self) == *old(self) && exists|d: Db, left: Db|
                    d@ == old(self)@ && #[trigger] steps.ensures(
                        (d,),
                        (left, Err::<T, DbError>(e)),
                    ),
            },
    {
        let draft = self.clone();
        let (done, result) = steps(draft);
        match result {
            Ok(v) => {
                *self = done;
                Ok(v)
            },
            Err(e) => Err(e),
        }
    }
}

} // verus!
