//! The rows that are kept about batteries, readings, instruments and matches.

use vstd::prelude::*;

verus! {

/// One cell. `deleted_at` is set while the record is in the bin.
#[derive(Debug)]
pub struct Battery {
    pub id: i64,
    pub cell_type: String,
    pub nominal_mah: Option<i64>,
    pub brand: String,
    pub location: String,
    pub notes: String,
    pub created_at: String,
    pub updated_at: String,
    pub deleted_at: Option<String>,
    /// Set only on what a deletion hands back: whether the row itself is gone.
    pub hard_deleted: Option<bool>,
}

/// A battery with its texts as sequences of characters.
#[verifier::ext_equal]
pub struct BatteryView {
    pub id: i64,
    pub cell_type: Seq<char>,
    pub nominal_mah: Option<i64>,
    pub brand: Seq<char>,
    pub location: Seq<char>,
    pub notes: Seq<char>,
    pub created_at: Seq<char>,
    pub updated_at: Seq<char>,
    pub deleted_at: Option<Seq<char>>,
    pub hard_deleted: Option<bool>,
}

pub open spec fn opt_text(o: Option<String>) -> Option<Seq<char>> {
    match o {
        Some(s) => Some(s@),
        None => None,
    }
}

impl View for Battery {
    type V = BatteryView;

    open spec fn view(&self) -> BatteryView {
        BatteryView {
            id: self.id,
            cell_type: self.cell_type@,
            nominal_mah: self.nominal_mah,
            brand: self.brand@,
            location: self.location@,
            notes: self.notes@,
            created_at: self.created_at@,
            updated_at: self.updated_at@,
            deleted_at: opt_text(self.deleted_at),
            hard_deleted: self.hard_deleted,
        }
    }
}

pub fn clone_opt_text(o: &Option<String>) -> (r: Option<String>)
    ensures
        r == *o,
{
    match o {
        Some(s) => Some(s.clone()),
        None => None,
    }
}

impl Clone for Battery {
    fn clone(&self) -> (r: Self)
        ensures
            r == *self,
    {
        Battery {
            id: self.id,
            cell_type: self.cell_type.clone(),
            nominal_mah: self.nominal_mah,
            brand: self.brand.clone(),
            location: self.location.clone(),
            notes: self.notes.clone(),
            created_at: self.created_at.clone(),
            updated_at: self.updated_at.clone(),
            deleted_at: clone_opt_text(&self.deleted_at),
            hard_deleted: self.hard_deleted,
        }
    }
}

/// One move of a battery.
#[derive(Debug)]
pub struct LocationEntry {
    pub id: i64,
    pub battery_id: i64,
    pub location: String,
    pub moved_at: String,
}

#[verifier::ext_equal]
pub struct LocationEntryView {
    pub id: i64,
    pub battery_id: i64,
    pub location: Seq<char>,
    pub moved_at: Seq<char>,
}

impl View for LocationEntry {
    type V = LocationEntryView;

    open spec fn view(&self) -> LocationEntryView {
        LocationEntryView {
            id: self.id,
            battery_id: self.battery_id,
            location: self.location@,
            moved_at: self.moved_at@,
        }
    }
}

impl Clone for LocationEntry {
    fn clone(&self) -> (r: Self)
        ensures
            r == *self,
    {
        LocationEntry {
            id: self.id,
            battery_id: self.battery_id,
            location: self.location.clone(),
            moved_at: self.moved_at.clone(),
        }
    }
}

/// One reading of a battery.
#[derive(Debug)]
pub struct Measurement {
    pub id: i64,
    pub battery_id: i64,
    pub kind: String,
    pub measured_at: String,
    pub capacity_mah: Option<i64>,
    pub ir_mohm: Option<i64>,
    pub instrument_id: Option<i64>,
    pub mode_id: Option<i64>,
    pub discharge_ma: Option<i64>,
    pub charge_ma: Option<i64>,
    pub notes: String,
    pub created_at: String,
}

#[verifier::ext_equal]
pub struct MeasurementView {
    pub id: i64,
    pub battery_id: i64,
    pub kind: Seq<char>,
    pub measured_at: Seq<char>,
    pub capacity_mah: Option<i64>,
    pub ir_mohm: Option<i64>,
    pub instrument_id: Option<i64>,
    pub mode_id: Option<i64>,
    pub discharge_ma: Option<i64>,
    pub charge_ma: Option<i64>,
    pub notes: Seq<char>,
    pub created_at: Seq<char>,
}

impl View for Measurement {
    type V = MeasurementView;

    open spec fn view(&self) -> MeasurementView {
        MeasurementView {
            id: self.id,
            battery_id: self.battery_id,
            kind: self.kind@,
            measured_at: self.measured_at@,
            capacity_mah: self.capacity_mah,
            ir_mohm: self.ir_mohm,
            instrument_id: self.instrument_id,
            mode_id: self.mode_id,
            discharge_ma: self.discharge_ma,
            charge_ma: self.charge_ma,
            notes: self.notes@,
            created_at: self.created_at@,
        }
    }
}

impl Clone for Measurement {
    fn clone(&self) -> (r: Self)
        ensures
            r == *self,
    {
        Measurement {
            id: self.id,
            battery_id: self.battery_id,
            kind: self.kind.clone(),
            measured_at: self.measured_at.clone(),
            capacity_mah: self.capacity_mah,
            ir_mohm: self.ir_mohm,
            instrument_id: self.instrument_id,
            mode_id: self.mode_id,
            discharge_ma: self.discharge_ma,
            charge_ma: self.charge_ma,
            notes: self.notes.clone(),
            created_at: self.created_at.clone(),
        }
    }
}

/// A charger or a tester, as it is stored.
#[derive(Debug)]
pub struct InstrumentRow {
    pub id: i64,
    pub name: String,
    pub slots: i64,
    pub created_at: String,
    pub updated_at: String,
}

#[verifier::ext_equal]
pub struct InstrumentRowView {
    pub id: i64,
    pub name: Seq<char>,
    pub slots: i64,
    pub created_at: Seq<char>,
    pub updated_at: Seq<char>,
}

impl View for InstrumentRow {
    type V = InstrumentRowView;

    open spec fn view(&self) -> InstrumentRowView {
        InstrumentRowView {
            id: self.id,
            name: self.name@,
            slots: self.slots,
            created_at: self.created_at@,
            updated_at: self.updated_at@,
        }
    }
}

impl Clone for InstrumentRow {
    fn clone(&self) -> (r: Self)
        ensures
            r == *self,
    {
        InstrumentRow {
            id: self.id,
            name: self.name.clone(),
            slots: self.slots,
            created_at: self.created_at.clone(),
            updated_at: self.updated_at.clone(),
        }
    }
}

/// A procedure of an instrument. `fields` is the JSON text that says which
/// fields of a reading it shows and which it asks for.
#[derive(Debug)]
pub struct Mode {
    pub id: i64,
    pub instrument_id: i64,
    pub name: String,
    pub kind: String,
    pub details: String,
    pub position: i64,
    pub created_at: String,
    pub updated_at: String,
    pub fields: String,
}

#[verifier::ext_equal]
pub struct ModeView {
    pub id: i64,
    pub instrument_id: i64,
    pub name: Seq<char>,
    pub kind: Seq<char>,
    pub details: Seq<char>,
    pub position: i64,
    pub created_at: Seq<char>,
    pub updated_at: Seq<char>,
    pub fields: Seq<char>,
}

impl View for Mode {
    type V = ModeView;

    open spec fn view(&self) -> ModeView {
        ModeView {
            id: self.id,
            instrument_id: self.instrument_id,
            name: self.name@,
            kind: self.kind@,
            details: self.details@,
            position: self.position,
            created_at: self.created_at@,
            updated_at: self.updated_at@,
            fields: self.fields@,
        }
    }
}

impl Clone for Mode {
    fn clone(&self) -> (r: Self)
        ensures
            r == *self,
    {
        Mode {
            id: self.id,
            instrument_id: self.instrument_id,
            name: self.name.clone(),
            kind: self.kind.clone(),
            details: self.details.clone(),
            position: self.position,
            created_at: self.created_at.clone(),
            updated_at: self.updated_at.clone(),
            fields: self.fields.clone(),
        }
    }
}

/// An instrument together with its procedures in display order.
#[derive(Debug)]
pub struct Instrument {
    pub id: i64,
    pub name: String,
    pub slots: i64,
    pub created_at: String,
    pub updated_at: String,
    pub modes: Vec<Mode>,
}

/// A set of batteries that was handed out together.
#[derive(Debug)]
pub struct Match {
    pub id: i64,
    pub location: String,
    pub requested_type: String,
    pub draw: String,
    pub created_at: String,
    pub returned_at: Option<String>,
    pub battery_ids: Vec<i64>,
}

#[verifier::ext_equal]
pub struct MatchView {
    pub id: i64,
    pub location: Seq<char>,
    pub requested_type: Seq<char>,
    pub draw: Seq<char>,
    pub created_at: Seq<char>,
    pub returned_at: Option<Seq<char>>,
    pub battery_ids: Seq<i64>,
}

impl View for Match {
    type V = MatchView;

    open spec fn view(&self) -> MatchView {
        MatchView {
            id: self.id,
            location: self.location@,
            requested_type: self.requested_type@,
            draw: self.draw@,
            created_at: self.created_at@,
            returned_at: opt_text(self.returned_at),
            battery_ids: self.battery_ids@,
        }
    }
}

impl Clone for Match {
    fn clone(&self) -> (r: Self)
        ensures
            r@ == self@,
    {
        let ids = clone_ids(&self.battery_ids);
        Match {
            id: self.id,
            location: self.location.clone(),
            requested_type: self.requested_type.clone(),
            draw: self.draw.clone(),
            created_at: self.created_at.clone(),
            returned_at: clone_opt_text(&self.returned_at),
            battery_ids: ids,
        }
    }
}

pub fn clone_ids(v: &Vec<i64>) -> (r: Vec<i64>)
    ensures
        r@ == v@,
{
    let mut out: Vec<i64> = Vec::new();
    let mut i: usize = 0;
    while i < v.len()
        invariant
            i <= v@.len(),
            out@ == v@.take(i as int),
        decreases v@.len() - i,
    {
        out.push(v[i]);
        i = i + 1;
    }
    assert(v@.take(v@.len() as int) =~= v@);
    out
}

/// One override on the settings page.
#[derive(Debug)]
pub struct Setting {
    pub key: String,
    pub value: String,
    pub updated_at: String,
}

#[verifier::ext_equal]
pub struct SettingView {
    pub key: Seq<char>,
    pub value: Seq<char>,
    pub updated_at: Seq<char>,
}

impl View for Setting {
    type V = SettingView;

    open spec fn view(&self) -> SettingView {
        SettingView { key: self.key@, value: self.value@, updated_at: self.updated_at@ }
    }
}

impl Clone for Setting {
    fn clone(&self) -> (r: Self)
        ensures
            r == *self,
    {
        Setting {
            key: self.key.clone(),
            value: self.value.clone(),
            updated_at: self.updated_at.clone(),
        }
    }
}

} // verus!
