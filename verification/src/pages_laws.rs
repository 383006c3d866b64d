//! What the pages tell.

use vstd::prelude::*;
use crate::db::{lemma_at, Db};
use crate::dict::Dict;
use crate::list::highest_number;
use crate::list_laws::readings_are_the_batterys_own;
use crate::order::{sorted, sorted_same_members, Alphabetical};
use crate::pages::{is_detail_page, usual_locations, AddPage, CommandResult, Page};
use crate::reads::{
    by_use, lemma_by_use, lemma_columns, next_number, readings, seen, values_in, ByUse, Column,
};
use crate::reads_laws::{
    in_named, is_used, the_next_number_follows_the_highest, the_number_after_is_the_nearest,
    the_number_before_is_the_nearest, the_values_are_those_in_use, what_is_used_most_comes_first,
};
use crate::rows::Battery;
use crate::view_laws::no_number_is_above_the_highest;

verus! {

/// Whether a battery was never measured.
pub open spec fn unmeasured(db: Db, id: i64) -> bool {
    forall|j: int|
        0 <= j < db.measurements@.len() ==> (#[trigger] db.measurements@[j]).battery_id != id
}

proof fn lemma_unmeasured(db: Db, id: i64)
    ensures
        readings(db.measurements@, id).len() == 0 <==> unmeasured(db, id),
{
    broadcast use vstd::seq_lib::group_to_multiset_ensures;

    let rows = db.measurements@;
    let ms = readings(rows, id);
    if ms.len() > 0 {
        readings_are_the_batterys_own(rows, id, ms[0]);
        assert(ms.contains(ms[0]));
        assert(ms.to_multiset().count(ms[0]) > 0);
        let j = rows.index_of(ms[0]);
        assert(rows[j].battery_id == id);
    }
    if !unmeasured(db, id) {
        let j = choose|j: int| 0 <= j < rows.len() && (#[trigger] rows[j]).battery_id == id;
        readings_are_the_batterys_own(rows, id, rows[j]);
        assert(rows.contains(rows[j]));
        assert(rows.to_multiset().count(rows[j]) > 0);
        assert(ms.contains(rows[j]));
    }
}

/// The page of a battery is of that battery, and of it alone. It says that the
/// battery goes for good when deleted where it has the highest number and was
/// never measured, and that it can be removed where it is deleted and was never
/// measured. It leads on to the nearest numbers on either side.
pub proof fn a_page_tells_of_its_battery(
    r: CommandResult,
    db: Db,
    env: Dict<String>,
    id: i64,
    today: Seq<char>,
    tab: Seq<char>,
    dialog: Seq<char>,
    msg: Seq<char>,
    error: Seq<char>,
    i: int,
)
    requires
        db@.wf(),
        next_number(db.batteries@) is Some,
        is_detail_page(r, db, env, id, today, tab, dialog, msg, error),
        0 <= i < db.batteries@.len(),
        db.batteries@[i].id == id,
    ensures
        r is Page && (r->page matches Page::Detail(p) && {
            &&& p.battery == db.batteries@[i]
            &&& p.will_hard_delete <==> unmeasured(db, id) && forall|j: int|
                0 <= j < db.batteries@.len() ==> (#[trigger] db.batteries@[j]).id <= id
            &&& p.can_purge <==> unmeasured(db, id) && p.battery.deleted_at is Some
            &&& p.prev matches Some(n) ==> n < id && forall|j: int|
                0 <= j < db.batteries@.len() ==> (#[trigger] db.batteries@[j]).id <= n
                    || db.batteries@[j].id >= id
            &&& p.next matches Some(n) ==> n > id && forall|j: int|
                0 <= j < db.batteries@.len() ==> (#[trigger] db.batteries@[j]).id >= n
                    || db.batteries@[j].id <= id
            &&& p.prev is None ==> forall|j: int|
                0 <= j < db.batteries@.len() ==> (#[trigger] db.batteries@[j]).id >= id
            &&& p.next is None ==> forall|j: int|
                0 <= j < db.batteries@.len() ==> (#[trigger] db.batteries@[j]).id <= id
            &&& forall|k: int|
                0 <= k < p.readings@.len() ==> {
                    let m = readings(db.measurements@, id)[k];
                    let row = #[trigger] p.readings@[k];
                    &&& row.id == m.id
                    &&& row.measured_at@ == m.measured_at@
                    &&& row.kind@ == m.kind@
                    &&& row.capacity_mah == m.capacity_mah
                    &&& row.ir_mohm == m.ir_mohm
                    &&& row.discharge_ma == m.discharge_ma
                    &&& row.charge_ma == m.charge_ma
                    &&& row.notes@ == m.notes@
                }
            &&& p.readings@.len() == readings(db.measurements@, id).len()
            &&& p.history@ == crate::reads::moves(db.history@, id)
        }),
{
    let rows = db.batteries@;
    lemma_at(rows, id, 0);
    let k = crate::db::at(rows, id, 0);
    if k < i {
        assert(db@.batteries[k] == rows[k]@ && db@.batteries[i] == rows[i]@);
        assert(db@.batteries[k].id == db@.batteries[i].id);
    }
    assert(k == i);
    lemma_unmeasured(db, id);
    no_number_is_above_the_highest(db);
    the_number_before_is_the_nearest(rows, id);
    the_number_after_is_the_nearest(rows, id);
    if id == highest_number(db) {
        assert(forall|j: int| 0 <= j < rows.len() ==> (#[trigger] rows[j]).id <= id);
    } else {
        let j = choose|j: int| 0 <= j < rows.len() && (#[trigger] rows[j]).id == highest_number(db);
        assert(rows[j].id > id);
    }
}

/// The form for new batteries suggests a number that is not taken, and for the
/// type, the brand and the place what is used as such.
pub proof fn the_form_suggests_what_is_used(
    p: AddPage,
    db: Db,
    env: Dict<String>,
    values: Seq<(Seq<char>, crate::helpers::FieldValueView)>,
    v: Seq<char>,
)
    requires
        p.shows(db, env, values),
        next_number(db.batteries@) is Some,
    ensures
        forall|i: int|
            0 <= i < db.batteries@.len() ==> (#[trigger] db.batteries@[i]).id < p.suggested_id,
        seen(p.types@, v) <==> v.len() > 0 && is_used(db.batteries@, "type"@, v),
        seen(p.brands@, v) <==> v.len() > 0 && is_used(db.batteries@, "brand"@, v),
        seen(p.locations@, v) <==> v.len() > 0 && is_used(db.batteries@, "location"@, v),
{
    crate::reads::lemma_columns();
    the_next_number_follows_the_highest(db.batteries@, next_number(db.batteries@)->0);
    the_values_are_those_in_use(db.batteries@, "type"@, v);
    the_values_are_those_in_use(db.batteries@, "brand"@, v);
    the_values_are_those_in_use(db.batteries@, "location"@, v);
}

/// The usual places are the eight that are used most, or all where there are not
/// so many.
pub proof fn the_usual_places_are_used_most(db: Db, o: ByUse, i: int, v: Seq<char>)
    requires
        o.rows@ == db.batteries@,
        o.column == Column::Location,
        0 <= i < usual_locations(db).len(),
        v.len() > 0,
        is_used(db.batteries@, "location"@, v),
        !seen(usual_locations(db), v),
    ensures
        usual_locations(db).len() == 8,
        ({
            let p = |v: Seq<char>|
                db.batteries@.filter(
                    |b: Battery| b.deleted_at is None && in_named(b, "location"@) == v,
                ).len();
            p(usual_locations(db)[i]@) >= p(v)
        }),
{
    let rows = db.batteries@;
    let values = values_in(rows, Column::Location, false);
    let all = by_use(rows, Column::Location, values);
    let shown = usual_locations(db);
    lemma_columns();
    lemma_by_use(o, values);
    the_values_are_those_in_use(rows, "location"@, v);
    sorted_same_members(Alphabetical, values);
    sorted_same_members(o, values);
    let a = sorted(Alphabetical, values);
    let k = choose|k: int| 0 <= k < a.len() && (#[trigger] a[k])@ == v;
    assert(a.contains(a[k]));
    assert(all.contains(a[k]));
    let j = all.index_of(a[k]);
    if j < shown.len() {
        assert(shown[j]@ == v);
    }
    assert(i < j);
    what_is_used_most_comes_first(rows, "location"@, o, v, i, j);
}

} // verus!
