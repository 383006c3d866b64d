//! What the scanner and the label downloads ask for.

use vstd::prelude::*;
use vstd::string::*;
use crate::actions::{reading_typed, read_values, values_typed};
use crate::config::{get, value_of};
use crate::db::{row, Db, DbView};
use crate::dict::Dict;
use crate::helpers::{clean_reading, whole_number};
use crate::labels::{decode_payload, scanned_id};
use crate::pages::{pool_location, pool_of};
use crate::pdf::PdfLayout;
use crate::printer::{tape_mm_x10, tape_of, Drawing};
use crate::records::{measured, ReadingView};
use crate::rows::{clone_ids, Battery, BatteryView, Measurement, MeasurementView, SettingView};
use crate::sets::moved_with_set;
use crate::text::{int_text, pad3, pad3_text, parsed_int, push_int, same, trimmed};
use crate::writes::restored;

verus! {

/// The battery that a scanned code names, or why there is none.
pub open spec fn resolved(db: Db, code: Seq<char>) -> Result<Battery, Seq<char>> {
    match scanned_id(code) {
        Err(e) => Err(e),
        Ok(id) => match row(db.batteries@, id) {
            Some(b) => Ok(b),
            None => Err("No battery has ever had id "@ + int_text(id as int) + "."@),
        },
    }
}

/// Finds the battery that was scanned, and says whether it is deleted.
pub fn resolve_code(db: &Db, code: &str) -> (r: Result<(Battery, bool), String>)
    ensures
        match r {
            Ok((b, deleted)) => resolved(*db, code@) == Ok::<Battery, Seq<char>>(b) && deleted == (
            b.deleted_at is Some),
            Err(e) => resolved(*db, code@) == Err::<Battery, Seq<char>>(e@),
        },
{
    let id = match decode_payload(code) {
        Ok(id) => id,
        Err(e) => return Err(e),
    };
    match db.get(id) {
        Ok(Some(b)) => {
            let deleted = b.deleted_at.is_some();
            Ok((b, deleted))
        },
        _ => {
            let mut m = "No battery has ever had id ".to_string();
            push_int(&mut m, id as i128);
            m.append(".");
            Err(m)
        },
    }
}

/// Restores a battery that was scanned.
pub fn restore_battery_api(db: &mut Db, id: i64, now: &str) -> (r: Result<Battery, String>)
    ensures
        final(db)@ == restored(old(db)@, id, now@).0,
        match (r, restored(old(db)@, id, now@).1) {
            (Ok(b), Some(v)) => b@ == v,
            (Err(e), None) => e@ == "No such battery."@,
            _ => false,
        },
{
    match db.restore(id, now) {
        Ok(Some(b)) => Ok(b),
        _ => Err("No such battery.".to_string()),
    }
}

/// What became of moving a battery that was scanned.
pub open spec fn scanned_move(
    d: DbView,
    id: i64,
    location: Seq<char>,
    pool: Seq<char>,
    now: Seq<char>,
) -> Result<(DbView, BatteryView), Seq<char>> {
    match moved_with_set(d, id, location, pool, now) {
        Ok((e, (Some(b), _))) => Ok((e, b)),
        Ok((_, (None, _))) => Err("No such battery."@),
        Err(e) => Err(e.text()),
    }
}

/// Moves a battery that was scanned; where it goes back to the pool, so does
/// the rest of its set.
pub fn set_location_api(db: &mut Db, env: &Dict<String>, id: i64, location: &str, now: &str) -> (r:
    Result<Battery, String>)
    ensures
        ({
            let outcome = scanned_move(old(db)@, id, location@, pool_of(*old(db), *env), now@);
            match r {
                Ok(b) => outcome == Ok::<(DbView, BatteryView), Seq<char>>((final(db)@, b@)),
                Err(e) => final(db)@ == old(db)@ && outcome == Err::<
                    (DbView, BatteryView),
                    Seq<char>,
                >(e@),
            }
        }),
{
    let pool = pool_location(db, env);
    match db.set_location_checked(id, location, pool.as_str(), now) {
        Ok((Some(b), _)) => Ok(b),
        Ok((None, _)) => Err("No such battery.".to_string()),
        Err(e) => Err(e.message()),
    }
}

/// A reading as the scanner sends it.
#[derive(Debug)]
pub struct ScannedReading {
    pub kind: String,
    pub measured_at: String,
    pub capacity_mah: String,
    pub ir_mohm: String,
    pub instrument_id: String,
    pub mode_id: String,
    pub discharge_ma: String,
    pub charge_ma: String,
    pub notes: String,
}

/// The reading that the scanner sends, or what is wrong with it.
pub open spec fn scanned_reading(d: DbView, s: ScannedReading) -> Result<ReadingView, Seq<char>> {
    reading_typed(
        d,
        s.kind@,
        s.measured_at@,
        parsed_int(trimmed(s.instrument_id@)),
        parsed_int(trimmed(s.mode_id@)),
        values_typed(s.capacity_mah@, s.ir_mohm@, s.discharge_ma@, s.charge_ma@),
        s.notes@,
    )
}

/// What became of a reading that the scanner sent.
pub open spec fn scanned_measure(d: DbView, id: i64, s: ScannedReading, now: Seq<char>) -> Result<
    (DbView, MeasurementView),
    Seq<char>,
> {
    match scanned_reading(d, s) {
        Err(e) => Err(e),
        Ok(reading) => match measured(d, id, reading, now) {
            Ok((e, Some(m))) => Ok((e, m)),
            Ok((_, None)) => Err("No such battery."@),
            Err(e) => Err(e.text()),
        },
    }
}

/// Saves a reading that the scanner sent.
pub fn add_measurement_api(db: &mut Db, id: i64, s: &ScannedReading, now: &str) -> (r: Result<
    Measurement,
    String,
>)
    ensures
        ({
            let outcome = scanned_measure(old(db)@, id, *s, now@);
            match r {
                Ok(m) => outcome == Ok::<(DbView, MeasurementView), Seq<char>>((final(db)@, m@)),
                Err(e) => final(db)@ == old(db)@ && outcome == Err::<
                    (DbView, MeasurementView),
                    Seq<char>,
                >(e@),
            }
        }),
{
    let v = match read_values(
        s.capacity_mah.as_str(),
        s.ir_mohm.as_str(),
        s.discharge_ma.as_str(),
        s.charge_ma.as_str(),
    ) {
        Ok(v) => v,
        Err(e) => return Err(e),
    };
    let instrument_id = whole_number(s.instrument_id.as_str());
    let mode_id = whole_number(s.mode_id.as_str());
    if let Err(e) = clean_reading(
        db,
        s.kind.as_str(),
        v.capacity_mah,
        v.ir_mohm,
        instrument_id,
        mode_id,
        v.discharge_ma,
        v.charge_ma,
    ) {
        return Err(e);
    }
    match db.add_measurement(
        id,
        s.kind.as_str(),
        s.measured_at.as_str(),
        v.capacity_mah,
        v.ir_mohm,
        instrument_id,
        mode_id,
        v.discharge_ma,
        v.charge_ma,
        s.notes.as_str(),
        now,
    ) {
        Ok(Some(m)) => Ok(m),
        Ok(None) => Err("No such battery.".to_string()),
        Err(e) => Err(e.message()),
    }
}

// ── Labels as files ─────────────────────────────────────────────────────

/// Labels to draw with what is set for the tape and the number.
pub open spec fn draws(
    d: Drawing,
    ids: Seq<i64>,
    settings: Seq<SettingView>,
    env: Dict<String>,
) -> bool {
    d.ids@ == ids && d.tape_mm_x10 == tape_of(settings, env) && (d.scale_num, d.scale_den)
        == value_of(settings, env, "id_text_scale"@).fraction()
}

fn drawing(db: &Db, env: &Dict<String>, ids: &Vec<i64>) -> (r: Drawing)
    ensures
        draws(r, ids@, db@.settings, *env),
{
    let (scale_num, scale_den) = get(db, env, "id_text_scale").as_share();
    Drawing { ids: clone_ids(ids), tape_mm_x10: tape_mm_x10(db, env), scale_num, scale_den }
}

/// The label of one battery, as a picture.
pub fn get_label_png(db: &Db, env: &Dict<String>, id: i64) -> (r: Result<Drawing, String>)
    ensures
        match r {
            Ok(d) => row(db.batteries@, id) is Some && draws(d, seq![id], db@.settings, *env),
            Err(e) => row(db.batteries@, id) is None && e@ == "No battery has id "@ + int_text(
                id as int,
            ) + "."@,
        },
{
    match db.get(id) {
        Ok(Some(_)) => {
            let ids = vec![id];
            assert(ids@ =~= seq![id]);
            Ok(drawing(db, env, &ids))
        },
        _ => {
            let mut m = "No battery has id ".to_string();
            push_int(&mut m, id as i128);
            m.append(".");
            Err(m)
        },
    }
}

/// The name that a picture of a label is offered under.
pub fn png_name(id: i64) -> (r: String)
    ensures
        r@ == "battery-"@ + pad3_text(id as int) + ".png"@,
{
    let mut m = "battery-".to_string();
    m.append(pad3(id).as_str());
    m.append(".png");
    m
}

/// A file with the labels of some batteries.
#[derive(Debug)]
pub struct PdfOrder {
    pub drawing: Drawing,
    pub layout: PdfLayout,
    pub name: String,
}

/// How labels are laid out in a file.
pub open spec fn layout_of(settings: Seq<SettingView>, env: Dict<String>) -> PdfLayout {
    if value_of(settings, env, "pdf_layout"@).text() == "grid"@ {
        PdfLayout::Grid
    } else {
        PdfLayout::Pages
    }
}

/// The name that a file of labels is offered under.
pub open spec fn pdf_name(ids: Seq<i64>) -> Seq<char> {
    if ids.len() == 1 {
        "battery-"@ + pad3_text(ids[0] as int) + ".pdf"@
    } else {
        "labels.pdf"@
    }
}

pub fn save_labels_pdf(db: &Db, env: &Dict<String>, ids: &Vec<i64>) -> (r: Result<PdfOrder, String>)
    ensures
        match r {
            Ok(o) => ids@.len() > 0 && draws(o.drawing, ids@, db@.settings, *env) && o.layout
                == layout_of(db@.settings, *env) && o.name@ == pdf_name(ids@),
            Err(e) => ids@.len() == 0 && e@ == "No battery ids were given."@,
        },
{
    if ids.len() == 0 {
        return Err("No battery ids were given.".to_string());
    }
    let layout = if same(get(db, env, "pdf_layout").as_text().as_str(), "grid") {
        PdfLayout::Grid
    } else {
        PdfLayout::Pages
    };
    let name = if ids.len() == 1 {
        let mut m = "battery-".to_string();
        m.append(pad3(ids[0]).as_str());
        m.append(".pdf");
        m
    } else {
        "labels.pdf".to_string()
    };
    Ok(PdfOrder { drawing: drawing(db, env, ids), layout, name })
}

} // verus!
