//! What can be done to the tables.
//!
//! Every change is made whole or not at all: where it fails, the tables are as
//! they were.

use vstd::prelude::*;
use vstd::string::*;
use crate::db::{
    at, bought, find, present, lemma_kept_views, lemma_views, lemma_views_at, lemma_views_push,
    lemma_views_update, row, views_of, Db, DbError, DbErrorView, DbResult, DbView,
};
use crate::reads::{highest, OfBattery};
use crate::rows::{
    Battery, BatteryView, LocationEntry, LocationEntryView, Match, MatchView, Measurement,
    MeasurementView,
};
use crate::select::{select, Test};
use crate::text::{same, to_upper, trim, trimmed, uppercased};

verus! {

pub const KINDS: [&'static str; 3] = ["bought", "charged", "analysed"];

pub const PROCEDURE_KINDS: [&'static str; 2] = ["charged", "analysed"];

// ── Moving ──────────────────────────────────────────────────────────────

/// The tables with one more entry of the location history, if there is a
/// number left for it.
pub open spec fn with_move(d: DbView, battery_id: i64, location: Seq<char>, now: Seq<char>) -> Option<
    DbView,
> {
    if d.last_history == i64::MAX {
        None
    } else {
        let id = (d.last_history + 1) as i64;
        Some(
            DbView {
                history: d.history.push(
                    LocationEntryView { id, battery_id, location, moved_at: now },
                ),
                last_history: id,
                ..d
            },
        )
    }
}

/// The tables with the battery in row `i` changed.
pub open spec fn with_battery(d: DbView, i: int, b: BatteryView) -> DbView {
    DbView { batteries: d.batteries.update(i, b), ..d }
}

/// Moving a battery: nothing happens where it is there already.
pub open spec fn moved(d: DbView, id: i64, location: Seq<char>, now: Seq<char>) -> Result<
    (DbView, Option<BatteryView>),
    DbErrorView,
> {
    let i = at(d.batteries, id, 0);
    let place = trimmed(location);
    if i >= d.batteries.len() {
        Ok((d, None))
    } else if place == d.batteries[i].location {
        Ok((d, Some(d.batteries[i])))
    } else {
        let b = BatteryView { location: place, updated_at: now, ..d.batteries[i] };
        match with_move(with_battery(d, i, b), id, place, now) {
            Some(e) => Ok((e, Some(b))),
            None => Err(DbErrorView::Full),
        }
    }
}

// ── Batteries ───────────────────────────────────────────────────────────

/// Adding a battery: its texts are trimmed, its type is put in upper case, and
/// where it has a location that is its first one.
pub open spec fn created(
    d: DbView,
    id: i64,
    cell_type: Seq<char>,
    nominal_mah: Option<i64>,
    brand: Seq<char>,
    location: Seq<char>,
    notes: Seq<char>,
    now: Seq<char>,
) -> Result<(DbView, BatteryView), DbErrorView> {
    let b = BatteryView {
        id,
        cell_type: uppercased(trimmed(cell_type)),
        nominal_mah,
        brand: trimmed(brand),
        location: trimmed(location),
        notes: trimmed(notes),
        created_at: now,
        updated_at: now,
        deleted_at: None,
        hard_deleted: None,
    };
    let e = DbView { batteries: d.batteries.push(b), ..d };
    if present(d.batteries, id) {
        Err(DbErrorView::Duplicate)
    } else if b.location.len() == 0 {
        Ok((e, b))
    } else {
        match with_move(e, id, b.location, now) {
            Some(f) => Ok((f, b)),
            None => Err(DbErrorView::Full),
        }
    }
}

/// A text that is given, or the one that is there.
pub open spec fn given_or(given: Option<Seq<char>>, there: Seq<char>) -> Seq<char> {
    match given {
        Some(s) => s,
        None => there,
    }
}

/// Editing a battery: each field is changed or left alone on its own.
pub open spec fn updated(
    d: DbView,
    id: i64,
    cell_type: Option<Seq<char>>,
    nominal_mah: Option<Option<i64>>,
    brand: Option<Seq<char>>,
    notes: Option<Seq<char>>,
    now: Seq<char>,
) -> (DbView, Option<BatteryView>) {
    let i = at(d.batteries, id, 0);
    if i >= d.batteries.len() {
        (d, None)
    } else if cell_type is None && nominal_mah is None && brand is None && notes is None {
        (d, Some(d.batteries[i]))
    } else {
        let old_row = d.batteries[i];
        let b = BatteryView {
            cell_type: match cell_type {
                Some(t) => uppercased(trimmed(t)),
                None => old_row.cell_type,
            },
            nominal_mah: match nominal_mah {
                Some(n) => n,
                None => old_row.nominal_mah,
            },
            brand: given_or(brand, old_row.brand),
            notes: given_or(notes, old_row.notes),
            updated_at: now,
            ..old_row
        };
        (with_battery(d, i, b), Some(b))
    }
}

pub open spec fn battery_is_not(id: i64) -> spec_fn(BatteryView) -> bool {
    |b: BatteryView| b.id != id
}

pub open spec fn move_is_not_of(id: i64) -> spec_fn(LocationEntryView) -> bool {
    |e: LocationEntryView| e.battery_id != id
}

pub open spec fn reading_is_not_of(id: i64) -> spec_fn(MeasurementView) -> bool {
    |m: MeasurementView| m.battery_id != id
}

pub open spec fn is_not(id: i64) -> spec_fn(i64) -> bool {
    |n: i64| n != id
}

/// A match without one of its members.
pub open spec fn without_member(m: MatchView, id: i64) -> MatchView {
    MatchView { battery_ids: m.battery_ids.filter(is_not(id)), ..m }
}

pub open spec fn drop_member(id: i64) -> spec_fn(MatchView) -> MatchView {
    |m: MatchView| without_member(m, id)
}

/// The tables without what is recorded of a battery: its moves, its readings
/// and its place in any match.
pub open spec fn without_records(d: DbView, id: i64) -> DbView {
    DbView {
        history: d.history.filter(move_is_not_of(id)),
        measurements: d.measurements.filter(reading_is_not_of(id)),
        matches: d.matches.map_values(drop_member(id)),
        ..d
    }
}

/// The tables without a battery.
pub open spec fn without_battery(d: DbView, id: i64) -> DbView {
    DbView { batteries: d.batteries.filter(battery_is_not(id)), ..without_records(d, id) }
}

pub open spec fn has_readings(d: DbView, id: i64) -> bool {
    exists|i: int| 0 <= i < d.measurements.len() && (#[trigger] d.measurements[i]).battery_id == id
}

pub open spec fn is_highest(d: DbView, id: i64) -> bool {
    forall|i: int| 0 <= i < d.batteries.len() ==> (#[trigger] d.batteries[i]).id <= id
}

/// What is left of a battery that is gone.
pub open spec fn gone(id: i64) -> BatteryView {
    BatteryView {
        id,
        cell_type: Seq::empty(),
        nominal_mah: None,
        brand: Seq::empty(),
        location: Seq::empty(),
        notes: Seq::empty(),
        created_at: Seq::empty(),
        updated_at: Seq::empty(),
        deleted_at: None,
        hard_deleted: Some(true),
    }
}

/// Deleting a battery: the one with the highest number goes for good if it has
/// no readings, any other is only marked. A deleted one stays as it is.
pub open spec fn soft_deleted(d: DbView, id: i64, now: Seq<char>) -> (DbView, Option<BatteryView>) {
    let i = at(d.batteries, id, 0);
    if i >= d.batteries.len() {
        (d, None)
    } else if d.batteries[i].deleted_at is Some {
        (d, Some(BatteryView { hard_deleted: Some(false), ..d.batteries[i] }))
    } else if is_highest(d, id) && !has_readings(d, id) {
        (without_battery(d, id), Some(gone(id)))
    } else {
        let b = BatteryView { deleted_at: Some(now), updated_at: now, ..d.batteries[i] };
        (with_battery(d, i, b), Some(BatteryView { hard_deleted: Some(false), ..b }))
    }
}

/// Removing a battery for good: only a deleted one without readings.
pub open spec fn purged(d: DbView, id: i64) -> Result<DbView, Seq<char>> {
    let i = at(d.batteries, id, 0);
    if i >= d.batteries.len() {
        Err("No such battery."@)
    } else if d.batteries[i].deleted_at is None {
        Err("Only a deleted battery can be permanently removed."@)
    } else if has_readings(d, id) {
        Err("This battery has readings, so it cannot be permanently removed."@)
    } else {
        Ok(without_battery(d, id))
    }
}

pub open spec fn restored(d: DbView, id: i64, now: Seq<char>) -> (DbView, Option<BatteryView>) {
    let i = at(d.batteries, id, 0);
    if i >= d.batteries.len() {
        (d, None)
    } else if d.batteries[i].deleted_at is None {
        (d, Some(d.batteries[i]))
    } else {
        let b = BatteryView { deleted_at: None, updated_at: now, ..d.batteries[i] };
        (with_battery(d, i, b), Some(b))
    }
}

/// Clearing a record: all that is left is the number, the type and a note of
/// when it was cleared.
pub open spec fn reset_record(d: DbView, id: i64, now: Seq<char>) -> Result<
    (DbView, Option<BatteryView>),
    DbErrorView,
> {
    let i = at(d.batteries, id, 0);
    if i >= d.batteries.len() {
        Ok((d, None))
    } else {
        let b = BatteryView {
            nominal_mah: None,
            brand: Seq::empty(),
            location: Seq::empty(),
            notes: Seq::empty(),
            created_at: now,
            updated_at: now,
            deleted_at: None,
            ..d.batteries[i]
        };
        match with_move(
            with_battery(without_records(d, id), i, b),
            id,
            "Record cleared"@,
            now,
        ) {
            Some(e) => Ok((e, Some(b))),
            None => Err(DbErrorView::Full),
        }
    }
}

// ── Helpers that change one table ───────────────────────────────────────

/// A row of another battery.
pub struct NotOfBattery {
    pub battery_id: i64,
}

impl Test<Battery> for NotOfBattery {
    open spec fn holds(&self, b: Battery) -> bool {
        b.id != self.battery_id
    }

    fn check(&self, b: &Battery) -> (r: bool) {
        b.id != self.battery_id
    }
}

impl Test<LocationEntry> for NotOfBattery {
    open spec fn holds(&self, e: LocationEntry) -> bool {
        e.battery_id != self.battery_id
    }

    fn check(&self, e: &LocationEntry) -> (r: bool) {
        e.battery_id != self.battery_id
    }
}

impl Test<Measurement> for NotOfBattery {
    open spec fn holds(&self, m: Measurement) -> bool {
        m.battery_id != self.battery_id
    }

    fn check(&self, m: &Measurement) -> (r: bool) {
        m.battery_id != self.battery_id
    }
}

fn relocated(b: &Battery, location: &str, now: &str) -> (r: Battery)
    ensures
        r@ == (BatteryView { location: location@, updated_at: now@, ..b@ }),
{
    let mut out = b.clone();
    out.location = location.to_string();
    out.updated_at = now.to_string();
    out
}

fn ids_without(ids: &Vec<i64>, id: i64) -> (r: Vec<i64>)
    ensures
        r@ == ids@.filter(is_not(id)),
{
    let mut out: Vec<i64> = Vec::new();
    let mut i: usize = 0;
    proof {
        reveal(Seq::filter);
    }
    assert(out@ =~= ids@.take(0).filter(is_not(id)));
    while i < ids.len()
        invariant
            i <= ids@.len(),
            out@ == ids@.take(i as int).filter(is_not(id)),
        decreases ids@.len() - i,
    {
        proof {
            reveal(Seq::filter);
        }
        assert(ids@.take(i + 1).drop_last() =~= ids@.take(i as int));
        if ids[i] != id {
            out.push(ids[i]);
        }
        i = i + 1;
    }
    assert(ids@.take(ids@.len() as int) =~= ids@);
    out
}

fn matches_without(rows: &Vec<Match>, id: i64) -> (r: Vec<Match>)
    ensures
        views_of(r@) == views_of(rows@).map_values(drop_member(id)),
{
    let mut out: Vec<Match> = Vec::new();
    let mut i: usize = 0;
    let ghost wanted = views_of(rows@).map_values(drop_member(id));
    assert(views_of(out@) =~= wanted.take(0));
    while i < rows.len()
        invariant
            i <= rows@.len(),
            wanted == views_of(rows@).map_values(drop_member(id)),
            views_of(out@) == wanted.take(i as int),
        decreases rows@.len() - i,
    {
        let m = &rows[i];
        let next = Match {
            id: m.id,
            location: m.location.clone(),
            requested_type: m.requested_type.clone(),
            draw: m.draw.clone(),
            created_at: m.created_at.clone(),
            returned_at: crate::rows::clone_opt_text(&m.returned_at),
            battery_ids: ids_without(&m.battery_ids, id),
        };
        proof {
            lemma_views_push(out@, next);
            assert(next@ =~= without_member(rows@[i as int]@, id));
        }
        out.push(next);
        assert(views_of(out@) =~= wanted.take(i + 1));
        i = i + 1;
    }
    assert(wanted.take(rows@.len() as int) =~= wanted);
    out
}

impl Db {
    /// Records a move. There has to be a number left for it.
    fn record_move(&mut self, battery_id: i64, location: &str, now: &str)
        requires
            old(self).last_history < i64::MAX,
        ensures
            with_move(old(self)@, battery_id, location@, now@) == Some(final(self)@),
            final(self).settings == old(self).settings,
    {
        let id: i64 = self.last_history + 1;
        let entry = LocationEntry {
            id,
            battery_id,
            location: location.to_string(),
            moved_at: now.to_string(),
        };
        proof {
            lemma_views_push(self.history@, entry);
        }
        self.history.push(entry);
        self.last_history = id;
    }

    fn put_battery(&mut self, i: usize, b: Battery)
        requires
            i < old(self).batteries@.len(),
        ensures
            final(self)@ == with_battery(old(self)@, i as int, b@),
            final(self).last_history == old(self).last_history,
    {
        proof {
            lemma_views_update(self.batteries@, i as int, b);
        }
        self.batteries.set(i, b);
    }

    fn drop_records(&mut self, battery_id: i64)
        ensures
            final(self)@ == without_records(old(self)@, battery_id),
            final(self).batteries == old(self).batteries,
            final(self).last_history == old(self).last_history,
    {
        let p = NotOfBattery { battery_id };
        proof {
            lemma_kept_views(p, self.history@, move_is_not_of(battery_id));
            lemma_kept_views(p, self.measurements@, reading_is_not_of(battery_id));
        }
        self.history = select(&p, &self.history);
        self.measurements = select(&p, &self.measurements);
        self.matches = matches_without(&self.matches, battery_id);
    }

    fn drop_battery(&mut self, battery_id: i64)
        ensures
            final(self)@ == without_battery(old(self)@, battery_id),
    {
        let p = NotOfBattery { battery_id };
        proof {
            lemma_kept_views(p, self.batteries@, battery_is_not(battery_id));
        }
        self.drop_records(battery_id);
        self.batteries = select(&p, &self.batteries);
    }

    fn measured(&self, battery_id: i64) -> (r: bool)
        ensures
            r == has_readings(self@, battery_id),
    {
        let p = OfBattery { battery_id };
        let r = crate::select::any(&p, &self.measurements);
        proof {
            lemma_views(self.measurements@);
            if r {
                let i = choose|i: int|
                    0 <= i < self.measurements@.len() && p.holds(#[trigger] self.measurements@[i]);
                assert(self@.measurements[i].battery_id == battery_id);
            }
            if has_readings(self@, battery_id) {
                let i = choose|i: int|
                    0 <= i < self@.measurements.len() && (
                    #[trigger] self@.measurements[i]).battery_id == battery_id;
                assert(p.holds(self.measurements@[i]));
            }
        }
        r
    }

    fn highest_is(&self, battery_id: i64) -> (r: bool)
        ensures
            r == is_highest(self@, battery_id),
    {
        let mut i: usize = 0;
        while i < self.batteries.len()
            invariant
                i <= self.batteries@.len(),
                forall|j: int| 0 <= j < i ==> (#[trigger] self@.batteries[j]).id <= battery_id,
            decreases self.batteries@.len() - i,
        {
            assert(self@.batteries[i as int] == self.batteries@[i as int]@);
            if self.batteries[i].id > battery_id {
                return false;
            }
            i = i + 1;
        }
        true
    }

    // ── Batteries ───────────────────────────────────────────────────────

    /// Adds a battery.
    pub fn create(
        &mut self,
        battery_id: i64,
        cell_type: &str,
        nominal_mah: Option<i64>,
        brand: &str,
        location: &str,
        notes: &str,
        now: &str,
    ) -> (r: DbResult<Battery>)
        ensures
            match r {
                Ok(b) => created(
                    old(self)@,
                    battery_id,
                    cell_type@,
                    nominal_mah,
                    brand@,
                    location@,
                    notes@,
                    now@,
                ) == Ok::<(DbView, BatteryView), DbErrorView>((final(self)@, b@)),
                Err(e) => *final(self) == *old(self) && created(
                    old(self)@,
                    battery_id,
                    cell_type@,
                    nominal_mah,
                    brand@,
                    location@,
                    notes@,
                    now@,
                ) == Err::<(DbView, BatteryView), DbErrorView>(e@),
            },
    {
        proof {
            lemma_views_at::<BatteryView, Battery>(self.batteries@, battery_id, 0);
        }
        if find(&self.batteries, battery_id).is_some() {
            return Err(DbError::Duplicate);
        }
        let place = trim(location);
        if !place.is_empty() && self.last_history == i64::MAX {
            return Err(DbError::Full);
        }
        let b = Battery {
            id: battery_id,
            cell_type: to_upper(trim(cell_type)),
            nominal_mah,
            brand: trim(brand).to_string(),
            location: place.to_string(),
            notes: trim(notes).to_string(),
            created_at: now.to_string(),
            updated_at: now.to_string(),
            deleted_at: None,
            hard_deleted: None,
        };
        let out = b.clone();
        proof {
            lemma_views_push(self.batteries@, b);
        }
        self.batteries.push(b);
        if !place.is_empty() {
            self.record_move(battery_id, place, now);
        }
        Ok(out)
    }

    /// Moves a battery; a move to where it is already is not recorded.
    pub fn set_location(&mut self, battery_id: i64, location: &str, now: &str) -> (r: DbResult<
        Option<Battery>,
    >)
        ensures
            match r {
                Ok(b) => moved(old(self)@, battery_id, location@, now@) == Ok::<
                    (DbView, Option<BatteryView>),
                    DbErrorView,
                >((final(self)@, opt_battery(b))),
                Err(e) => *final(self) == *old(self) && moved(
                    old(self)@,
                    battery_id,
                    location@,
                    now@,
                ) == Err::<(DbView, Option<BatteryView>), DbErrorView>(e@),
            },
    {
        proof {
            lemma_views_at::<BatteryView, Battery>(self.batteries@, battery_id, 0);
            lemma_views(self.batteries@);
        }
        let i = match find(&self.batteries, battery_id) {
            Some(i) => i,
            None => return Ok(None),
        };
        let place = trim(location);
        if same(place, self.batteries[i].location.as_str()) {
            return Ok(Some(self.batteries[i].clone()));
        }
        if self.last_history == i64::MAX {
            return Err(DbError::Full);
        }
        let b = relocated(&self.batteries[i], place, now);
        let out = b.clone();
        self.put_battery(i, b);
        self.record_move(battery_id, place, now);
        Ok(Some(out))
    }

    /// Edits what describes a battery. `None` leaves a field alone;
    /// `nominal_mah` is `Some(None)` to clear it.
    pub fn update(
        &mut self,
        battery_id: i64,
        cell_type: Option<&str>,
        nominal_mah: Option<Option<i64>>,
        brand: Option<&str>,
        notes: Option<&str>,
        now: &str,
    ) -> (r: DbResult<Option<Battery>>)
        ensures
            r matches Ok(b) && (final(self)@, opt_battery(b)) == updated(
                old(self)@,
                battery_id,
                opt_str(cell_type),
                nominal_mah,
                opt_str(brand),
                opt_str(notes),
                now@,
            ),
    {
        proof {
            lemma_views_at::<BatteryView, Battery>(self.batteries@, battery_id, 0);
            lemma_views(self.batteries@);
        }
        let i = match find(&self.batteries, battery_id) {
            Some(i) => i,
            None => return Ok(None),
        };
        let mut b = self.batteries[i].clone();
        if cell_type.is_none() && nominal_mah.is_none() && brand.is_none() && notes.is_none() {
            return Ok(Some(b));
        }
        if let Some(t) = cell_type {
            b.cell_type = to_upper(trim(t));
        }
        if let Some(n) = nominal_mah {
            b.nominal_mah = n;
        }
        if let Some(s) = brand {
            b.brand = s.to_string();
        }
        if let Some(s) = notes {
            b.notes = s.to_string();
        }
        b.updated_at = now.to_string();
        let out = b.clone();
        self.put_battery(i, b);
        Ok(Some(out))
    }

    /// Deletes a battery: for good only the one with the highest number, and
    /// only if it has no readings.
    pub fn soft_delete(&mut self, battery_id: i64, now: &str) -> (r: DbResult<Option<Battery>>)
        ensures
            r matches Ok(b) && (final(self)@, opt_battery(b)) == soft_deleted(
                old(self)@,
                battery_id,
                now@,
            ),
    {
        proof {
            lemma_views_at::<BatteryView, Battery>(self.batteries@, battery_id, 0);
            lemma_views(self.batteries@);
        }
        let i = match find(&self.batteries, battery_id) {
            Some(i) => i,
            None => return Ok(None),
        };
        let mut b = self.batteries[i].clone();
        if b.deleted_at.is_some() {
            b.hard_deleted = Some(false);
            return Ok(Some(b));
        }
        if self.highest_is(battery_id) && !self.measured(battery_id) {
            self.drop_battery(battery_id);
            let out = Battery {
                id: battery_id,
                cell_type: String::new(),
                nominal_mah: None,
                brand: String::new(),
                location: String::new(),
                notes: String::new(),
                created_at: String::new(),
                updated_at: String::new(),
                deleted_at: None,
                hard_deleted: Some(true),
            };
            assert(out@ =~= gone(battery_id));
            return Ok(Some(out));
        }
        b.deleted_at = Some(now.to_string());
        b.updated_at = now.to_string();
        let mut out = b.clone();
        self.put_battery(i, b);
        out.hard_deleted = Some(false);
        Ok(Some(out))
    }

    /// Removes a deleted battery that was never measured for good. Both are
    /// looked at here too, since this cannot be undone.
    pub fn purge(&mut self, battery_id: i64) -> (r: Result<(), String>)
        ensures
            match r {
                Ok(()) => purged(old(self)@, battery_id) == Ok::<DbView, Seq<char>>(final(self)@),
                Err(e) => *final(self) == *old(self) && purged(old(self)@, battery_id) == Err::<
                    DbView,
                    Seq<char>,
                >(e@),
            },
    {
        proof {
            lemma_views_at::<BatteryView, Battery>(self.batteries@, battery_id, 0);
            lemma_views(self.batteries@);
        }
        let i = match find(&self.batteries, battery_id) {
            Some(i) => i,
            None => return Err("No such battery.".to_string()),
        };
        if self.batteries[i].deleted_at.is_none() {
            return Err("Only a deleted battery can be permanently removed.".to_string());
        }
        if self.measured(battery_id) {
            return Err(
                "This battery has readings, so it cannot be permanently removed.".to_string(),
            );
        }
        self.drop_battery(battery_id);
        Ok(())
    }

    /// Takes a battery back out of the bin.
    pub fn restore(&mut self, battery_id: i64, now: &str) -> (r: DbResult<Option<Battery>>)
        ensures
            r matches Ok(b) && (final(self)@, opt_battery(b)) == restored(
                old(self)@,
                battery_id,
                now@,
            ),
    {
        proof {
            lemma_views_at::<BatteryView, Battery>(self.batteries@, battery_id, 0);
            lemma_views(self.batteries@);
        }
        let i = match find(&self.batteries, battery_id) {
            Some(i) => i,
            None => return Ok(None),
        };
        let mut b = self.batteries[i].clone();
        if b.deleted_at.is_none() {
            return Ok(Some(b));
        }
        b.deleted_at = None;
        b.updated_at = now.to_string();
        let out = b.clone();
        self.put_battery(i, b);
        Ok(Some(out))
    }

    /// Clears the record of a battery, whose sticker is now on another cell.
    pub fn reset(&mut self, battery_id: i64, now: &str) -> (r: DbResult<Option<Battery>>)
        ensures
            match r {
                Ok(b) => reset_record(old(self)@, battery_id, now@) == Ok::<
                    (DbView, Option<BatteryView>),
                    DbErrorView,
                >((final(self)@, opt_battery(b))),
                Err(e) => *final(self) == *old(self) && reset_record(old(self)@, battery_id, now@)
                    == Err::<(DbView, Option<BatteryView>), DbErrorView>(e@),
            },
    {
        proof {
            lemma_views_at::<BatteryView, Battery>(self.batteries@, battery_id, 0);
            lemma_views(self.batteries@);
        }
        let i = match find(&self.batteries, battery_id) {
            Some(i) => i,
            None => return Ok(None),
        };
        if self.last_history == i64::MAX {
            return Err(DbError::Full);
        }
        let mut b = self.batteries[i].clone();
        b.nominal_mah = None;
        b.brand = String::new();
        b.location = String::new();
        b.notes = String::new();
        b.created_at = now.to_string();
        b.updated_at = now.to_string();
        b.deleted_at = None;
        let out = b.clone();
        self.drop_records(battery_id);
        self.put_battery(i, b);
        self.record_move(battery_id, "Record cleared", now);
        Ok(Some(out))
    }
}

pub open spec fn opt_battery(b: Option<Battery>) -> Option<BatteryView> {
    match b {
        Some(b) => Some(b@),
        None => None,
    }
}

pub open spec fn opt_str(s: Option<&str>) -> Option<Seq<char>> {
    match s {
        Some(s) => Some(s@),
        None => None,
    }
}

} // verus!
