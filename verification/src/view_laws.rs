//! What is shown of the tables, and what the boxes and lines of a form say.

use vstd::prelude::*;
use crate::api::{layout_of, pdf_name, resolved, scanned_reading, ScannedReading};
use crate::batch::{all_saved, also_returned, not_among, once, setting_typed};
use crate::config::{coerced, setting_list, setting_named, value_of};
use crate::db::{lemma_at, Db, DbView};
use crate::dict::Dict;
use crate::forms_laws::says;
use crate::handout::{candidate_with, candidates_with};
use crate::health::with_resistance;
use crate::health_laws::{
    comes_before, has_resistance, is_latest, resistances_by_date, texts_are_in_dictionary_order,
};
use crate::helpers::{field, positive};
use crate::instruments::{flags_typed, rules_of, slots_typed};
use crate::json::{json_flag, last_value};
use crate::labels::scanned_id;
use crate::links::filled;
use crate::list::{
    asked_page, chosen, heading_of, highest_number, scopes_of, url_pairs, whole_list, FiltersView,
};
use crate::matching::Candidate;
use crate::order::{
    sorted, sorted_in_order, sorted_keeps_all, sorted_same_members, Ascending, Order,
};
use crate::pages::last_used_in;
use crate::reads::{
    are_instruments, is_instrument, latest_by_instrument, modes_of, next_number, ByName,
};
use crate::rows::{Battery, Instrument, InstrumentRow, Measurement, Mode, SettingView};
use crate::text::{alphanumeric, int_text, pad3_text, parsed_int, trimmed, uppercased};
use crate::view::{
    flags_in, limit_set, name_or, names_in, names_of, size_of_change, usable, BatteryRow,
};

verus! {

// ── Rows ────────────────────────────────────────────────────────────────

/// Whether a reading is the latest one of a resistance.
pub open spec fn tells_resistance(m: Measurement, ms: Seq<Measurement>) -> bool {
    is_latest(m, ms, |m: Measurement| has_resistance(m))
}

/// A row is of its battery. It warns of a resistance where the latest one
/// reaches the limit, and of a delete that is for good where the battery has the
/// highest number and no readings.
pub proof fn a_row_warns_of_its_battery(
    row: BatteryRow,
    b: Battery,
    ms: Seq<Measurement>,
    limit: Option<i64>,
    health_limit: Option<i64>,
    highest_id: int,
)
    requires
        row.shows(b, ms, limit, health_limit, highest_id),
    ensures
        row.id == b.id,
        row.cell_type@ == b.cell_type@,
        row.brand@ == b.brand@,
        row.location@ == b.location@,
        row.deleted_at == b.deleted_at,
        row.ir_over_limit ==> exists|m: Measurement| #[trigger]
            tells_resistance(m, ms) && limit is Some && m.ir_mohm->0
                >= limit->0,
        !row.ir_over_limit ==> limit is None || (forall|m: Measurement| #[trigger]
            ms.contains(m) ==> !has_resistance(m)) || exists|m: Measurement| #[trigger]
            tells_resistance(m, ms) && m.ir_mohm->0 < limit->0,
        row.will_hard_delete <==> b.id == highest_id && ms.len() == 0,
{
    resistances_by_date(ms);
    let found = with_resistance(ms);
    if found.len() > 0 {
        let p = |m: Measurement| has_resistance(m);
        assert(tells_resistance(found.last(), ms));
        assert(p(found.last()));
    }
}

/// The names of the instruments are those that they have.
pub proof fn an_instrument_goes_by_its_name(db: Db, i: int)
    requires
        db@.wf(),
        0 <= i < db.instruments@.len(),
    ensures
        names_of(db).dom().contains(db.instruments@[i].id),
        names_of(db)[db.instruments@[i].id]@ == db.instruments@[i].name@,
{
    let rows = db.instruments@;
    let s = sorted(ByName, rows);
    sorted_same_members(ByName, rows);
    assert(rows.contains(rows[i]));
    assert(s.contains(rows[i]));
    let k = s.index_of(rows[i]);
    assert forall|j: int| 0 <= j < s.len() && (#[trigger] s[j]).id == rows[i].id implies s[j].name@
        == rows[i].name@ by {
        assert(s.contains(s[j]));
        let n = rows.index_of(s[j]);
        assert(db@.instruments[n] == rows[n]@);
        assert(db@.instruments[i] == rows[i]@);
        if n < i {
            assert(db@.instruments[n].id != db@.instruments[i].id);
        }
        if i < n {
            assert(db@.instruments[i].id != db@.instruments[n].id);
        }
    }
    lemma_named(s, rows[i].id, rows[i].name@, k);
}

proof fn lemma_named(rows: Seq<InstrumentRow>, id: i64, name: Seq<char>, k: int)
    requires
        0 <= k < rows.len(),
        rows[k].id == id,
        forall|j: int| 0 <= j < rows.len() && (#[trigger] rows[j]).id == id ==> rows[j].name@ == name,
    ensures
        names_in(rows).dom().contains(id),
        names_in(rows)[id]@ == name,
    decreases rows.len(),
{
    let d = rows.drop_last();
    assert(rows[rows.len() - 1] == rows.last());
    if rows.last().id != id {
        assert(d[k] == rows[k]);
        assert forall|j: int| 0 <= j < d.len() && (#[trigger] d[j]).id == id implies d[j].name@
            == name by {
            assert(d[j] == rows[j]);
        }
        lemma_named(d, id, name, k);
    }
}

/// Nothing that is not an instrument has a name.
pub proof fn only_instruments_have_names(db: Db, id: i64)
    requires
        names_of(db).dom().contains(id),
    ensures
        exists|i: int| 0 <= i < db.instruments@.len() && (#[trigger] db.instruments@[i]).id == id,
{
    let s = sorted(ByName, db.instruments@);
    sorted_same_members(ByName, db.instruments@);
    let k = lemma_name_from(s, id);
    assert(s.contains(s[k]));
    let i = db.instruments@.index_of(s[k]);
    assert(db.instruments@[i].id == id);
}

proof fn lemma_name_from(rows: Seq<InstrumentRow>, id: i64) -> (k: int)
    requires
        names_in(rows).dom().contains(id),
    ensures
        0 <= k < rows.len(),
        rows[k].id == id,
    decreases rows.len(),
{
    if rows.last().id == id {
        rows.len() - 1
    } else {
        lemma_name_from(rows.drop_last(), id)
    }
}

/// The limit for a resistance is the one that is set for AAA or for AA cells,
/// by the whole type in capitals or else by what is left of its first word once
/// only letters and numbers are kept. There is none for any other type.
pub proof fn a_limit_is_set_by_type(
    cell_type: Seq<char>,
    settings: Seq<SettingView>,
    env: Dict<String>,
    k: int,
)
    requires
        ({
            let written = uppercased(trimmed(cell_type));
            &&& 0 <= k <= written.len()
            &&& k < written.len() ==> written[k] == ' '
            &&& forall|i: int| 0 <= i < k ==> written[i] != ' '
        }),
    ensures
        ({
            let written = uppercased(trimmed(cell_type));
            let word = written.take(k).filter(|c: char| alphanumeric(c));
            let aa = value_of(settings, env, "ir_limit_aa"@).number();
            let aaa = value_of(settings, env, "ir_limit_aaa"@).number();
            limit_set(cell_type, settings, env) == (if written == "AAA"@ {
                Some(aaa)
            } else if written == "AA"@ {
                Some(aa)
            } else if word == "AAA"@ {
                Some(aaa)
            } else if word == "AA"@ {
                Some(aa)
            } else {
                None
            })
        }),
{
    reveal_strlit("AA");
    reveal_strlit("AAA");
    assert("AA"@.len() == 2 && "AAA"@.len() == 3);
    crate::health_laws::lemma_leading_word(uppercased(trimmed(cell_type)), k);
}

// ── The list ────────────────────────────────────────────────────────────

/// Of the filters, what a query says goes before what is remembered. A scope or
/// an order that there is not becomes the usual one.
pub proof fn what_is_asked_goes_before_what_is_remembered(
    q: Dict<String>,
    saved: Option<Seq<char>>,
    s: String,
)
    ensures
        ({
            let f = chosen(q, saved);
            &&& q.spec_get("type"@) == Some(s) ==> f.type_filter == s@
            &&& q.spec_get("location"@) == Some(s) ==> f.location_filter == s@
            &&& q.spec_get("q"@) == Some(s) ==> f.search == s@
            &&& q.spec_get("show"@) == Some(s) && (s@ == "active"@ || s@ == "deleted"@ || s@
                == "all"@ || s@ == "flagged"@) ==> f.show == s@
            &&& q.spec_get("sort"@) == Some(s) && (s@ == "id"@ || s@ == "type"@ || s@ == "location"@
                || s@ == "health"@ || s@ == "resistance"@) ==> f.sort == s@
            &&& f.show == "active"@ || f.show == "deleted"@ || f.show == "all"@ || f.show
                == "flagged"@
            &&& f.sort == "id"@ || f.sort == "type"@ || f.sort == "location"@ || f.sort == "health"@
                || f.sort == "resistance"@
            &&& q.spec_get("show"@) == Some(s) && !(s@ == "active"@ || s@ == "deleted"@ || s@
                == "all"@ || s@ == "flagged"@) ==> f.show == "active"@
            &&& q.spec_get("sort"@) == Some(s) && !(s@ == "id"@ || s@ == "type"@ || s@ == "location"@
                || s@ == "health"@ || s@ == "resistance"@) ==> f.sort == "id"@
        }),
{
}

/// A scope is offered where there is something in it, and those that hold
/// everything where there is anything else to choose.
pub proof fn a_scope_is_offered_where_it_holds_something(flagged: nat, deleted: nat)
    ensures
        ({
            let s = scopes_of(flagged, deleted);
            &&& s.contains(("flagged"@, "Flagged"@)) <==> flagged > 0
            &&& s.contains(("deleted"@, "Deleted"@)) <==> deleted > 0
            &&& s.contains(("active"@, "Active"@)) <==> flagged > 0 || deleted > 0
            &&& s.contains(("all"@, "All"@)) <==> flagged > 0 || deleted > 0
        }),
{
    reveal_strlit("flagged");
    reveal_strlit("deleted");
    reveal_strlit("active");
    reveal_strlit("all");
    assert("flagged"@[0] == 'f' && "deleted"@[0] == 'd');
    assert("active"@.len() == 6 && "all"@.len() == 3);
    assert("flagged"@.len() == 7 && "deleted"@.len() == 7);
    let s = scopes_of(flagged, deleted);
    if flagged > 0 {
        assert(s[0] == ("active"@, "Active"@));
        assert(s[1] == ("flagged"@, "Flagged"@));
        if deleted > 0 {
            assert(s[2] == ("deleted"@, "Deleted"@));
            assert(s[3] == ("all"@, "All"@));
        } else {
            assert(s[2] == ("all"@, "All"@));
        }
    } else if deleted > 0 {
        assert(s[0] == ("active"@, "Active"@));
        assert(s[1] == ("deleted"@, "Deleted"@));
        assert(s[2] == ("all"@, "All"@));
    } else {
        assert(s.len() == 0);
    }
}

/// A link to a page of the list says what is listed, what it is sorted by unless
/// that is the number, and which page it is unless that is the first.
pub proof fn a_link_leads_to_the_page(f: FiltersView, page: int)
    ensures
        ({
            let p = url_pairs(f, page);
            &&& p.contains(("show"@, f.show))
            &&& p.contains(("type"@, f.type_filter))
            &&& p.contains(("location"@, f.location_filter))
            &&& p.contains(("q"@, f.search))
            &&& f.sort != "id"@ ==> p.contains(("sort"@, f.sort))
            &&& f.sort == "id"@ ==> p.contains(("sort"@, ""@))
            &&& page != 1 ==> p.contains(("page"@, int_text(page)))
            &&& page == 1 ==> p.contains(("page"@, ""@))
            &&& p.len() == 6
        }),
{
    let p = url_pairs(f, page);
    assert(p[0] == ("show"@, f.show));
    assert(p[1] == ("type"@, f.type_filter));
    assert(p[2] == ("location"@, f.location_filter));
    assert(p[3] == ("q"@, f.search));
    assert(p[4].0 == "sort"@);
    assert(p.contains(p[4]));
    assert(p.contains(p[5]));
}

/// The line above the list tells how many batteries it has, and of what kind they
/// are, where no type was asked for.
pub proof fn the_heading_tells_how_many(db: Db, env: Dict<String>, f: FiltersView, n: int)
    requires
        f.type_filter.len() == 0,
        whole_list(db, env, f).len() == n,
        n <= i64::MAX,
    ensures
        ({
            let noun = if n == 1 {
                " battery"@
            } else {
                " batteries"@
            };
            let deleted = if n == 1 {
                " deleted battery."@
            } else {
                " deleted batteries."@
            };
            let flagged = if n == 1 {
                " flagged battery."@
            } else {
                " flagged batteries."@
            };
            &&& f.show == "deleted"@ ==> heading_of(db, env, f) == int_text(n) + deleted
            &&& f.show == "flagged"@ ==> heading_of(db, env, f) == int_text(n) + flagged
            &&& f.show == "all"@ ==> heading_of(db, env, f) == int_text(n) + noun + " total."@
            &&& f.show == "active"@ && n == 0 ==> heading_of(db, env, f) == "No batteries."@
        }),
{
    reveal_strlit("deleted");
    reveal_strlit("flagged");
    reveal_strlit("all");
    reveal_strlit("active");
    assert("deleted"@[0] == 'd' && "flagged"@[0] == 'f' && "deleted"@.len() == 7
        && "flagged"@.len() == 7 && "all"@.len() == 3 && "active"@.len() == 6);
    reveal_strlit(" battery");
    reveal_strlit(" batteries");
    reveal_strlit(" deleted battery.");
    reveal_strlit(" deleted batteries.");
    reveal_strlit(" flagged battery.");
    reveal_strlit(" flagged batteries.");
    reveal_strlit(" deleted batter");
    reveal_strlit(" flagged batter");
    reveal_strlit(" batter");
    reveal_strlit("y");
    reveal_strlit("ies");
    reveal_strlit(".");
    assert(" battery"@ =~= " batter"@ + "y"@);
    assert(" batteries"@ =~= " batter"@ + "ies"@);
    assert(" deleted battery."@ =~= " deleted batter"@ + "y"@ + "."@);
    assert(" deleted batteries."@ =~= " deleted batter"@ + "ies"@ + "."@);
    assert(" flagged battery."@ =~= " flagged batter"@ + "y"@ + "."@);
    assert(" flagged batteries."@ =~= " flagged batter"@ + "ies"@ + "."@);
    let t = int_text(n);
    let end = if n == 1 {
        "y"@
    } else {
        "ies"@
    };
    assert(t + " deleted batter"@ + end + "."@ =~= t + (" deleted batter"@ + end + "."@));
    assert(t + " flagged batter"@ + end + "."@ =~= t + (" flagged batter"@ + end + "."@));
    assert(t + " batter"@ + end + " total."@ =~= t + (" batter"@ + end) + " total."@);
}

/// A file of labels is named after the battery where it is of one, and is laid
/// out as is set.
pub proof fn a_file_is_named_after_its_battery(
    ids: Seq<i64>,
    settings: Seq<SettingView>,
    env: Dict<String>,
)
    ensures
        ids.len() == 1 ==> pdf_name(ids) == "battery-"@ + pad3_text(ids[0] as int) + ".pdf"@,
        ids.len() != 1 ==> pdf_name(ids) == "labels.pdf"@,
        layout_of(settings, env) is Grid <==> value_of(settings, env, "pdf_layout"@).text()
            == "grid"@,
{
}

/// The highest number is that of a battery, and no battery has a higher one.
pub proof fn no_number_is_above_the_highest(db: Db)
    requires
        next_number(db.batteries@) is Some,
    ensures
        forall|i: int|
            0 <= i < db.batteries@.len() ==> (#[trigger] db.batteries@[i]).id <= highest_number(db),
        db.batteries@.len() > 0 ==> exists|i: int|
            0 <= i < db.batteries@.len() && (#[trigger] db.batteries@[i]).id == highest_number(db),
        db.batteries@.len() == 0 ==> highest_number(db) == 0,
{
    let n = next_number(db.batteries@)->0;
    crate::reads_laws::the_next_number_follows_the_highest(db.batteries@, n);
    if db.batteries@.len() > 0 {
        let i = choose|i: int|
            0 <= i < db.batteries@.len() && (#[trigger] db.batteries@[i]).id + 1 == n;
        assert(db.batteries@[i].id == highest_number(db));
    }
}

/// The page that is asked for is the one whose number the query says, and the
/// first where it says none.
pub proof fn a_query_asks_for_its_page(q: Dict<String>, n: i64, s: String)
    ensures
        asked_page(q) >= 1,
        q.spec_get("page"@) == Some(s) && parsed_int(s@) == Some(n) && n >= 1 ==> asked_page(q) == n,
        q.spec_get("page"@) is None ==> asked_page(q) == 1,
        q.spec_get("page"@) == Some(s) && (parsed_int(s@) matches Some(m) ==> m < 1) ==> asked_page(q)
            == 1,
{
}

/// Of several values under one name in a query the last counts.
pub proof fn the_last_value_counts(pairs: Seq<(Seq<char>, Seq<char>)>, key: Seq<char>, i: int)
    requires
        0 <= i < pairs.len(),
        pairs[i].0 == key,
        forall|j: int| i < j < pairs.len() ==> (#[trigger] pairs[j]).0 != key,
    ensures
        last_value(pairs, key) == Some(pairs[i].1),
    decreases pairs.len(),
{
    if i < pairs.len() - 1 {
        assert(pairs[pairs.len() - 1].0 != key);
        let d = pairs.drop_last();
        assert(d[i] == pairs[i]);
        assert forall|j: int| i < j < d.len() implies (#[trigger] d[j]).0 != key by {
            assert(d[j] == pairs[j]);
        }
        the_last_value_counts(d, key, i);
    }
}

/// A suggestion shows the cells that are suggested, in their order, where each of
/// them is among the candidates.
pub proof fn a_suggestion_shows_its_cells(cs: Seq<Candidate>, ids: Seq<i64>, i: int)
    requires
        0 <= i < ids.len(),
        forall|j: int| 0 <= j < ids.len() ==> has_candidate(cs, #[trigger] ids[j]),
    ensures
        candidates_with(cs, ids).len() == ids.len(),
        candidates_with(cs, ids)[i].battery.id == ids[i],
        cs.contains(candidates_with(cs, ids)[i]),
    decreases ids.len(),
{
    let d = ids.drop_last();
    assert(has_candidate(cs, ids[ids.len() - 1]));
    lemma_candidate(cs, ids.last());
    if d.len() > 0 {
        assert forall|j: int| 0 <= j < d.len() implies has_candidate(cs, #[trigger] d[j]) by {
            assert(d[j] == ids[j]);
        }
        if i < d.len() {
            a_suggestion_shows_its_cells(cs, d, i);
        } else {
            a_suggestion_shows_its_cells(cs, d, 0);
        }
    } else {
        assert(candidates_with(cs, d).len() == 0);
    }
    let c = candidate_with(cs, ids.last())->0;
    assert(candidates_with(cs, ids) == candidates_with(cs, d).push(c));
    assert(ids[ids.len() - 1] == ids.last());
}

/// Whether a battery is among the candidates.
pub open spec fn has_candidate(cs: Seq<Candidate>, id: i64) -> bool {
    exists|k: int| 0 <= k < cs.len() && (#[trigger] cs[k]).battery.id == id
}

proof fn lemma_candidate(cs: Seq<Candidate>, id: i64)
    requires
        has_candidate(cs, id),
    ensures
        candidate_with(cs, id) matches Some(c) && c.battery.id == id && cs.contains(c),
    decreases cs.len(),
{
    let d = cs.drop_last();
    assert(cs[cs.len() - 1] == cs.last());
    if cs.last().battery.id != id {
        let k = choose|k: int| 0 <= k < cs.len() && (#[trigger] cs[k]).battery.id == id;
        assert(d[k].battery.id == id);
        lemma_candidate(d, id);
        let c = candidate_with(d, id)->0;
        let n = d.index_of(c);
        assert(cs[n] == c);
    }
}

// ── Links ───────────────────────────────────────────────────────────────

/// Of what a link could say, it says all that is not empty, in the same order.
pub proof fn a_link_says_what_is_not_empty(pairs: Seq<(Seq<char>, Seq<char>)>)
    ensures
        filled(pairs) == pairs.filter(|p: (Seq<char>, Seq<char>)| p.1.len() > 0),
    decreases pairs.len(),
{
    reveal(Seq::filter);
    if pairs.len() > 0 {
        a_link_says_what_is_not_empty(pairs.drop_last());
    }
}

// ── Forms ───────────────────────────────────────────────────────────────

/// A field of a procedure is shown, or asked for, where its own box is ticked.
pub proof fn every_box_is_for_its_field(fields: Dict<String>, i: int)
    requires
        0 <= i < 5,
    ensures
        ({
            let rules = rules_of(flags_typed(fields));
            let names = seq![
                "capacity_mah"@,
                "ir_mohm"@,
                "discharge_ma"@,
                "charge_ma"@,
                "notes"@,
            ];
            &&& rules.len() == 5
            &&& rules[i].0 == names[i]
            &&& rules[i].1 == fields.spec_contains("field_"@ + names[i] + "_visible"@)
            &&& rules[i].2 == fields.spec_contains("field_"@ + names[i] + "_required"@)
        }),
{
}

/// An instrument has as many slots as were typed, and one where that was no
/// number above zero.
pub proof fn slots_are_as_typed(fields: Dict<String>, n: i64)
    ensures
        positive(field(fields, "slots"@)) == Some(n) ==> slots_typed(fields) == n,
        positive(field(fields, "slots"@)) is None ==> slots_typed(fields) == 1,
{
}

/// A reading from the scanner says what was sent, each value what was sent for
/// it.
pub proof fn a_scanned_reading_says_what_was_sent(d: DbView, s: ScannedReading)
    ensures
        scanned_reading(d, s) matches Ok(r) ==> {
            &&& r.kind == s.kind@
            &&& r.measured_at == s.measured_at@
            &&& says(s.capacity_mah@, r.capacity_mah)
            &&& says(s.ir_mohm@, r.ir_mohm)
            &&& says(s.discharge_ma@, r.discharge_ma)
            &&& says(s.charge_ma@, r.charge_ma)
            &&& r.instrument_id == parsed_int(trimmed(s.instrument_id@))
            &&& r.mode_id == parsed_int(trimmed(s.mode_id@))
            &&& r.notes == s.notes@
        },
{
}

/// A code that is scanned finds the battery with its number, where there is one.
pub proof fn a_code_finds_its_battery(db: Db, code: Seq<char>, n: i64)
    requires
        scanned_id(code) == Ok::<i64, Seq<char>>(n),
    ensures
        match resolved(db, code) {
            Ok(b) => b.id == n && db.batteries@.contains(b),
            Err(_) => forall|i: int|
                0 <= i < db.batteries@.len() ==> (#[trigger] db.batteries@[i]).id != n,
        },
{
    lemma_at(db.batteries@, n, 0);
    crate::db::lemma_has(db.batteries@, n);
    let k = crate::db::at(db.batteries@, n, 0);
    if k < db.batteries@.len() {
        assert(db.batteries@.contains(db.batteries@[k]));
    }
}

/// Whether there is a setting and it takes a text; to leave it blank is to set
/// nothing, but for a switch.
pub open spec fn takes(key: Seq<char>, raw: Seq<char>) -> bool {
    setting_named(key) matches Some(s) && (coerced(s, raw) is Ok || (trimmed(raw).len() == 0 && !(
    s.kind is Bool)))
}

/// The settings are saved without a fault where every one of them takes what was
/// typed for it: for a switch whether its box was ticked, and else the text.
pub proof fn settings_are_saved_where_all_are_taken(
    d: DbView,
    fields: Dict<String>,
    now: Seq<char>,
    n: int,
)
    requires
        0 <= n <= setting_list().len(),
    ensures
        all_saved(d, fields, now, n).1 is None <==> forall|i: int|
            0 <= i < n ==> ({
                let s = #[trigger] setting_list()[i];
                if s.kind is Bool {
                    takes(
                        s.key,
                        if fields.spec_contains(s.key) {
                            "1"@
                        } else {
                            "0"@
                        },
                    )
                } else {
                    takes(s.key, field(fields, s.key))
                }
            }),
    decreases n,
{
    if n > 0 {
        settings_are_saved_where_all_are_taken(d, fields, now, n - 1);
        let s = setting_list()[n - 1];
        let e = all_saved(d, fields, now, n - 1).0;
        crate::config_laws::only_what_is_taken_is_saved(e, s.key, setting_typed(s, fields), now);
        assert(takes(s.key, setting_typed(s, fields)) == (all_saved(d, fields, now, n).1 is None)
            || all_saved(d, fields, now, n - 1).1 is Some);
    }
}

// ── Choices ─────────────────────────────────────────────────────────────

/// What the next reading is expected to be taken with is what the latest one by
/// an instrument was taken with.
pub proof fn what_was_used_last_is_offered(ms: Seq<Measurement>, m: Measurement)
    requires
        latest_by_instrument(ms) == Some(m),
    ensures
        last_used_in(ms).instrument_id == m.instrument_id,
        last_used_in(ms).mode_id == m.mode_id,
        last_used_in(ms).discharge_ma == m.discharge_ma,
        last_used_in(ms).charge_ma == m.charge_ma,
{
}

/// An instrument can be chosen where it has a procedure.
pub proof fn an_instrument_with_a_procedure_can_be_chosen(
    rows: Seq<InstrumentRow>,
    modes: Seq<Mode>,
)
    ensures
        usable(rows, modes) == rows.filter(|r: InstrumentRow| modes_of(modes, r.id).len() > 0),
    decreases rows.len(),
{
    reveal(Seq::filter);
    if rows.len() > 0 {
        an_instrument_with_a_procedure_can_be_chosen(rows.drop_last(), modes);
    }
}

/// The instruments are listed by their names as in a dictionary, every one with
/// its own procedures.
pub proof fn instruments_are_listed_by_name(
    v: Seq<Instrument>,
    rows: Seq<InstrumentRow>,
    modes: Seq<Mode>,
    i: int,
    j: int,
)
    requires
        are_instruments(v, rows, modes),
        0 <= i < v.len(),
        i <= j < v.len(),
    ensures
        v.len() == rows.len(),
        i < j ==> comes_before(v[i].name@, v[j].name@) || v[i].name@ == v[j].name@,
        v[i].modes@ == modes_of(modes, v[i].id),
        exists|k: int|
            0 <= k < rows.len() && (#[trigger] rows[k]).id == v[i].id && rows[k].name@ == v[i].name@
                && rows[k].slots == v[i].slots,
{
    let s = sorted(ByName, rows);
    sorted_keeps_all(ByName, rows);
    sorted_same_members(ByName, rows);
    sorted_in_order(ByName, rows);
    assert(is_instrument(v[i], s[i], modes));
    assert(is_instrument(v[j], s[j], modes));
    assert(s.contains(s[i]));
    let k = rows.index_of(s[i]);
    assert(rows[k].id == v[i].id);
    if i < j {
        assert(ByName.le(s[i], s[j]));
        crate::text::lemma_text_lt_total(s[i].name@, s[j].name@);
        texts_are_in_dictionary_order(s[i].name@, s[j].name@);
    }
}

/// A reading names its instrument and its procedure where they are there, says so
/// where they are gone, and says nothing where it has none.
pub proof fn a_reading_names_what_it_was_taken_with(
    names: Map<i64, String>,
    id: Option<i64>,
    gone: Seq<char>,
)
    ensures
        id is None ==> name_or(names, id, gone) is None,
        id is Some && names.dom().contains(id->0) ==> name_or(names, id, gone) == Some(names[id->0]@),
        id is Some && !names.dom().contains(id->0) ==> name_or(names, id, gone) == Some(gone),
{
}

/// How much a resistance has changed is told without the direction.
pub proof fn a_change_is_told_by_its_size(c: i64)
    requires
        c > i64::MIN,
    ensures
        size_of_change(Some(c)) >= 0,
        size_of_change(Some(c)) == c || size_of_change(Some(c)) == -c,
        size_of_change(None) == 0,
{
}

/// A field is shown unless its flags say that it is not, and asked for only where
/// they say so.
pub proof fn a_field_is_shown_unless_hidden(fields: Seq<char>, key: Seq<char>)
    ensures
        flags_in(fields, key).visible == (json_flag(fields, key, "visible"@) != Some(false)),
        flags_in(fields, key).required == (json_flag(fields, key, "required"@) == Some(true)),
{
}

// ── Messages ────────────────────────────────────────────────────────────

/// The batteries that came back besides those that were asked for are told each
/// once, in ascending order.
pub proof fn the_others_are_told_once(also: Seq<i64>, ids: Seq<i64>, x: i64)
    ensures
        ({
            let told = also_returned(also, ids);
            &&& told.contains(x) <==> also.contains(x) && !ids.contains(x)
            &&& forall|i: int, j: int| 0 <= i < j < told.len() ==> #[trigger] told[i] < #[trigger] told[j]
        }),
{
    let f = also.filter(not_among(ids));
    let s = sorted(Ascending, f);
    sorted_in_order(Ascending, f);
    sorted_same_members(Ascending, f);
    assert forall|i: int, j: int| 0 <= i < j < s.len() implies #[trigger] s[i] <= #[trigger] s[j] by {
        assert(Ascending.le(s[i], s[j]));
    }
    lemma_once(s, x);
    lemma_others(also, ids, x);
}

proof fn lemma_others(also: Seq<i64>, ids: Seq<i64>, x: i64)
    ensures
        also.filter(not_among(ids)).contains(x) <==> also.contains(x) && !ids.contains(x),
    decreases also.len(),
{
    reveal(Seq::filter);
    let p = not_among(ids);
    if also.len() > 0 {
        let d = also.drop_last();
        lemma_others(d, ids, x);
        let all = also.filter(p);
        let before = d.filter(p);
        assert(also[also.len() - 1] == also.last());
        if before.contains(x) {
            let k = before.index_of(x);
            assert(all[k] == x);
        }
        if d.contains(x) {
            let k = d.index_of(x);
            assert(also[k] == x);
        }
        if also.contains(x) && !d.contains(x) {
            let k = also.index_of(x);
            if k < d.len() {
                assert(d[k] == x);
            }
            if p(x) {
                assert(all[all.len() - 1] == x);
            }
        }
        if all.contains(x) && !before.contains(x) {
            let k = all.index_of(x);
            if k < before.len() {
                assert(before[k] == x);
            }
        }
    }
}

proof fn lemma_once(s: Seq<i64>, x: i64)
    requires
        forall|i: int, j: int| 0 <= i < j < s.len() ==> #[trigger] s[i] <= #[trigger] s[j],
    ensures
        once(s).contains(x) <==> s.contains(x),
        forall|i: int, j: int|
            0 <= i < j < once(s).len() ==> #[trigger] once(s)[i] < #[trigger] once(s)[j],
        s.len() > 0 ==> once(s).len() > 0 && once(s).last() == s.last(),
    decreases s.len(),
{
    if s.len() >= 2 {
        let d = s.drop_last();
        assert forall|i: int, j: int| 0 <= i < j < d.len() implies #[trigger] d[i]
            <= #[trigger] d[j] by {
            assert(d[i] == s[i] && d[j] == s[j]);
        }
        lemma_once(d, x);
        let all = once(s);
        let before = once(d);
        assert(s[s.len() - 2] <= s[s.len() - 1]);
        assert(d.last() == s[s.len() - 2]);
        if s.contains(x) {
            let k = s.index_of(x);
            if k < d.len() {
                assert(d[k] == x);
            }
        }
        if d.contains(x) {
            let k = d.index_of(x);
            assert(s[k] == x);
        }
        assert(s[s.len() - 1] == s.last());
        if s.last() != s[s.len() - 2] {
            assert(all == before.push(s.last()));
            if before.contains(x) {
                let k = before.index_of(x);
                assert(all[k] == x);
            }
            assert(all[all.len() - 1] == s.last());
            if all.contains(x) && !before.contains(x) {
                let k = all.index_of(x);
                if k < before.len() {
                    assert(before[k] == x);
                }
            }
            assert forall|i: int, j: int| 0 <= i < j < all.len() implies #[trigger] all[i]
                < #[trigger] all[j] by {
                assert(all[i] == before[i]);
                if j < before.len() {
                    assert(all[j] == before[j]);
                } else if i < before.len() - 1 {
                    assert(before[i] < before[before.len() - 1]);
                }
            }
        } else if s.last() == x {
            assert(d[d.len() - 1] == x);
        }
    }
}

} // verus!
