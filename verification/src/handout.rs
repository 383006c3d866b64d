//! What the matching form does: it suggests a set of batteries, and hands it
//! out once that is confirmed.

use std::collections::HashMap;
use vstd::prelude::*;
use vstd::string::*;
use crate::actions::go_with;
use crate::config::{get, value_of};
use crate::db::Db;
use crate::dict::Dict;
use crate::helpers::{field, get_str, parse_positive_int, positive};
use crate::matching::{
    candidate_of, eligible_pool, pool, readings_of, suggest, suggested, Candidate, Draw,
    SuggestionView,
};
use crate::pages::{
    is_match_page, page_match, pool_location, pool_of, CommandResult, MatchRequest,
    MatchRequestView, SuggestedRow, SuggestionPart,
};
use crate::reads::{listed, readings};
use crate::rows::{Battery, Measurement};
use crate::sets::match_created;
use crate::text::{
    int_text, push_int, same, same_ignoring_ascii_case, same_ignoring_case, to_upper, trim,
    trimmed, uppercased,
};

verus! {

// ── The pool ────────────────────────────────────────────────────────────

/// The candidates among some batteries, by their stored readings.
pub open spec fn stored_pool(
    batteries: Seq<Battery>,
    ms: Seq<Measurement>,
    location: Seq<char>,
    default_ir: i64,
) -> Seq<Candidate>
    decreases batteries.len(),
{
    if batteries.len() == 0 {
        Seq::empty()
    } else {
        let before = stored_pool(batteries.drop_last(), ms, location, default_ir);
        let b = batteries.last();
        match candidate_of(b, readings(ms, b.id), location, default_ir) {
            Some(c) => before.push(c),
            None => before,
        }
    }
}

/// The candidates that are in the pool.
pub open spec fn candidates_of(db: Db, env: Dict<String>) -> Seq<Candidate> {
    stored_pool(
        listed(db.batteries@, ""@, ""@, ""@, "active"@, "id"@),
        db.measurements@,
        pool_of(db, env),
        value_of(db@.settings, env, "default_ir_mohm"@).number(),
    )
}

/// The readings are at hand for every battery in the pool.
spec fn at_hand(
    map: Map<i64, Vec<Measurement>>,
    batteries: Seq<Battery>,
    ms: Seq<Measurement>,
    location: Seq<char>,
) -> bool {
    forall|i: int|
        0 <= i < batteries.len() && same_ignoring_case((#[trigger] batteries[i]).location@, location)
            ==> readings_of(map, batteries[i].id) == readings(ms, batteries[i].id)
}

proof fn lemma_stored_pool(
    map: Map<i64, Vec<Measurement>>,
    batteries: Seq<Battery>,
    ms: Seq<Measurement>,
    location: Seq<char>,
    default_ir: i64,
)
    requires
        at_hand(map, batteries, ms, location),
    ensures
        pool(batteries, map, location, default_ir) == stored_pool(
            batteries,
            ms,
            location,
            default_ir,
        ),
    decreases batteries.len(),
{
    if batteries.len() > 0 {
        let d = batteries.drop_last();
        assert forall|i: int|
            0 <= i < d.len() && same_ignoring_case(
                (#[trigger] d[i]).location@,
                location,
            ) implies readings_of(map, d[i].id) == readings(ms, d[i].id) by {
            assert(batteries[i] == d[i]);
        }
        lemma_stored_pool(map, d, ms, location, default_ir);
        assert(batteries[batteries.len() - 1] == batteries.last());
    }
}

fn candidates(db: &Db, env: &Dict<String>) -> (r: Vec<Candidate>)
    ensures
        r@ == candidates_of(*db, *env),
{
    broadcast use vstd::std_specs::hash::group_hash_axioms;

    let location = pool_location(db, env);
    let default_ir = get(db, env, "default_ir_mohm").as_i64();
    let all = match db.list_batteries("", "", "", "active", "id", None, 0) {
        Ok(v) => v,
        Err(_) => Vec::new(),
    };
    let mut map: HashMap<i64, Vec<Measurement>> = HashMap::new();
    let mut i: usize = 0;
    while i < all.len()
        invariant
            i <= all@.len(),
            at_hand(map@, all@.take(i as int), db.measurements@, location@),
            forall|id: i64|
                map@.dom().contains(id) ==> (#[trigger] map@[id])@ == readings(db.measurements@, id),
        decreases all@.len() - i,
    {
        broadcast use vstd::std_specs::hash::group_hash_axioms;

        let ghost known = map@;
        let b = &all[i];
        if same_ignoring_ascii_case(b.location.as_str(), location.as_str()) {
            let ms = match db.measurements(b.id) {
                Ok(v) => v,
                Err(_) => Vec::new(),
            };
            map.insert(b.id, ms);
        }
        proof {
            let now = all@.take(i + 1);
            assert forall|j: int|
                0 <= j < now.len() && same_ignoring_case(
                    (#[trigger] now[j]).location@,
                    location@,
                ) implies readings_of(map@, now[j].id) == readings(db.measurements@, now[j].id) by {
                if j < i {
                    assert(all@.take(i as int)[j] == now[j]);
                    assert(readings_of(known, now[j].id) == readings(db.measurements@, now[j].id));
                    if known.dom().contains(now[j].id) {
                        assert(map@.dom().contains(now[j].id));
                        assert(map@[now[j].id]@ == readings(db.measurements@, now[j].id));
                    } else if map@.dom().contains(now[j].id) {
                        assert(map@[now[j].id]@ == readings(db.measurements@, now[j].id));
                    }
                } else {
                    assert(map@.dom().contains(now[j].id));
                    assert(map@[now[j].id]@ == readings(db.measurements@, now[j].id));
                }
            }
        }
        i = i + 1;
    }
    assert(all@.take(i as int) =~= all@);
    proof {
        lemma_stored_pool(map@, all@, db.measurements@, location@, default_ir);
    }
    eligible_pool(&all, &map, location.as_str(), default_ir)
}

// ── The suggestion ──────────────────────────────────────────────────────

/// The last candidate with a number.
pub open spec fn candidate_with(cs: Seq<Candidate>, id: i64) -> Option<Candidate>
    decreases cs.len(),
{
    if cs.len() == 0 {
        None
    } else if cs.last().battery.id == id {
        Some(cs.last())
    } else {
        candidate_with(cs.drop_last(), id)
    }
}

/// The candidates with some numbers.
pub open spec fn candidates_with(cs: Seq<Candidate>, ids: Seq<i64>) -> Seq<Candidate>
    decreases ids.len(),
{
    if ids.len() == 0 {
        Seq::empty()
    } else {
        let before = candidates_with(cs, ids.drop_last());
        match candidate_with(cs, ids.last()) {
            Some(c) => before.push(c),
            None => before,
        }
    }
}

fn find_candidate(cs: &Vec<Candidate>, id: i64) -> (r: Option<usize>)
    ensures
        match r {
            Some(k) => k < cs@.len() && candidate_with(cs@, id) == Some(cs@[k as int]),
            None => candidate_with(cs@, id) is None,
        },
{
    let mut i: usize = cs.len();
    assert(cs@.take(i as int) =~= cs@);
    while i > 0
        invariant
            i <= cs@.len(),
            candidate_with(cs@.take(i as int), id) == candidate_with(cs@, id),
        decreases i,
    {
        assert(cs@.take(i as int).drop_last() =~= cs@.take(i - 1));
        if cs[i - 1].battery.id == id {
            return Some(i - 1);
        }
        i = i - 1;
    }
    None
}

/// What is shown of a suggestion.
pub open spec fn is_suggestion(p: SuggestionPart, s: SuggestionView, cs: Seq<Candidate>) -> bool {
    let found = candidates_with(cs, s.battery_ids);
    &&& p.rows@.len() == found.len()
    &&& forall|i: int| 0 <= i < found.len() ==> (#[trigger] p.rows@[i]).shows(found[i])
    &&& p.mixed == s.mixed
    &&& p.count == s.battery_ids.len()
}

fn suggested_rows(cs: &Vec<Candidate>, ids: &Vec<i64>) -> (r: Vec<SuggestedRow>)
    ensures
        r@.len() == candidates_with(cs@, ids@).len(),
        forall|i: int|
            0 <= i < r@.len() ==> (#[trigger] r@[i]).shows(candidates_with(cs@, ids@)[i]),
{
    let mut out: Vec<SuggestedRow> = Vec::new();
    let mut i: usize = 0;
    assert(candidates_with(cs@, ids@.take(0)).len() == 0);
    while i < ids.len()
        invariant
            i <= ids@.len(),
            out@.len() == candidates_with(cs@, ids@.take(i as int)).len(),
            forall|j: int|
                0 <= j < out@.len() ==> (#[trigger] out@[j]).shows(
                    candidates_with(cs@, ids@.take(i as int))[j],
                ),
        decreases ids@.len() - i,
    {
        assert(ids@.take(i + 1).drop_last() =~= ids@.take(i as int));
        if let Some(k) = find_candidate(cs, ids[i]) {
            let c = &cs[k];
            out.push(
                SuggestedRow {
                    id: c.battery.id,
                    cell_type: c.battery.cell_type.clone(),
                    brand: c.battery.brand.clone(),
                    nominal_mah: c.battery.nominal_mah,
                    capacity_mah: c.capacity_mah,
                    ir_mohm: c.ir_mohm,
                    ir_assumed: c.ir_assumed,
                },
            );
        }
        i = i + 1;
    }
    assert(ids@.take(i as int) =~= ids@);
    out
}

// ── The form ────────────────────────────────────────────────────────────

/// The draw that was chosen; a low one where it is none.
pub open spec fn draw_typed(fields: Dict<String>) -> Draw {
    match Draw::parsed(field(fields, "draw"@)) {
        Some(d) => d,
        None => Draw::Low,
    }
}

/// What was typed, as it is shown again.
pub open spec fn request_typed(fields: Dict<String>) -> MatchRequestView {
    MatchRequestView {
        match_type: uppercased(trimmed(field(fields, "type"@))),
        match_count: field(fields, "count"@),
        match_draw: draw_typed(fields).text(),
        match_location: trimmed(field(fields, "location"@)),
    }
}

/// A count that a machine can hold.
pub open spec fn machine_count(n: i64) -> int {
    if n > usize::MAX {
        usize::MAX as int
    } else {
        n as int
    }
}

pub open spec fn handed_out_text(n: int, cell_type: Seq<char>, location: Seq<char>) -> Seq<char> {
    int_text(n) + " \""@ + cell_type + "\" batter"@ + crate::list::plural(n) + " moved to "@
        + location + "."@
}

/// A request for a set of batteries: the first thing that is missing is asked
/// for; a set that can be had is shown, and handed out where that was
/// confirmed. A set that fails to be recorded is not handed out.
pub open spec fn match_submitted(
    before: Db,
    after: Db,
    env: Dict<String>,
    fields: Dict<String>,
    now: Seq<char>,
    r: CommandResult,
) -> bool {
    let request = request_typed(fields);
    let draw = draw_typed(fields);
    let cs = candidates_of(before, env);
    if request.match_type.len() == 0 {
        after == before && is_match_page(
            r,
            after,
            env,
            ""@,
            "Enter a battery type."@,
            request,
            None,
        )
    } else if request.match_location.len() == 0 {
        after == before && is_match_page(
            r,
            after,
            env,
            ""@,
            "Enter a destination location."@,
            request,
            None,
        )
    } else {
        match positive(request.match_count) {
            None => after == before && is_match_page(
                r,
                after,
                env,
                ""@,
                "Enter how many batteries you need, as a whole number."@,
                request,
                None,
            ),
            Some(n) => match suggested(cs, request.match_type, machine_count(n), draw) {
                Err(e) => after == before && is_match_page(r, after, env, ""@, e, request, None),
                Ok(s) => if field(fields, "confirm"@) == "yes"@ {
                    match match_created(
                        before@,
                        request.match_location,
                        request.match_type,
                        draw.text(),
                        s.battery_ids,
                        now,
                    ) {
                        Ok((d, _)) => after@ == d && r.leads(
                            "/match"@,
                            seq![
                                (
                                    "msg"@,
                                    handed_out_text(
                                        s.battery_ids.len() as int,
                                        request.match_type,
                                        request.match_location,
                                    ),
                                ),
                            ],
                        ),
                        Err(e) => after == before && is_match_page(
                            r,
                            after,
                            env,
                            ""@,
                            e.text(),
                            request,
                            None,
                        ),
                    }
                } else {
                    after == before && exists|p: SuggestionPart| #[trigger]
                        is_suggestion(p, s, cs) && is_match_page(
                            r,
                            after,
                            env,
                            ""@,
                            ""@,
                            request,
                            Some(p),
                        )
                },
            },
        }
    }
}

fn read_request(fields: &Dict<String>) -> (r: MatchRequest)
    ensures
        r@ == request_typed(*fields),
{
    MatchRequest {
        match_type: to_upper(trim(get_str(fields, "type"))),
        match_count: get_str(fields, "count").to_string(),
        match_draw: read_draw(fields).as_str().to_string(),
        match_location: trim(get_str(fields, "location")).to_string(),
    }
}

fn read_draw(fields: &Dict<String>) -> (r: Draw)
    ensures
        r == draw_typed(*fields),
{
    match Draw::parse(get_str(fields, "draw")) {
        Some(d) => d,
        None => Draw::Low,
    }
}

fn hand_out(
    db: &mut Db,
    env: &Dict<String>,
    request: MatchRequest,
    draw: Draw,
    ids: &Vec<i64>,
    now: &str,
) -> (r: CommandResult)
    ensures
        match match_created(
            old(db)@,
            request@.match_location,
            request@.match_type,
            draw.text(),
            ids@,
            now@,
        ) {
            Ok((d, _)) => final(db)@ == d && r.leads(
                "/match"@,
                seq![
                    (
                        "msg"@,
                        handed_out_text(
                            ids@.len() as int,
                            request@.match_type,
                            request@.match_location,
                        ),
                    ),
                ],
            ),
            Err(e) => *final(db) == *old(db) && is_match_page(
                r,
                *final(db),
                *env,
                ""@,
                e.text(),
                request@,
                None,
            ),
        },
{
    match db.create_match(
        request.match_location.as_str(),
        request.match_type.as_str(),
        draw.as_str(),
        ids,
        now,
    ) {
        Ok(_) => {
            let n = ids.len();
            let mut m = String::new();
            push_int(&mut m, n as i128);
            assert(m@ =~= int_text(n as int));
            m.append(" \"");
            m.append(request.match_type.as_str());
            m.append("\" batter");
            m.append(
                if n == 1 {
                    "y"
                } else {
                    "ies"
                },
            );
            m.append(" moved to ");
            m.append(request.match_location.as_str());
            m.append(".");
            go_with("/match", "msg", m.as_str())
        },
        Err(e) => page_match(db, env, "", e.message().as_str(), request, None),
    }
}

pub fn submit_match(db: &mut Db, env: &Dict<String>, fields: &Dict<String>, now: &str) -> (r:
    CommandResult)
    ensures
        match_submitted(*old(db), *final(db), *env, *fields, now@, r),
{
    let request = read_request(fields);
    let draw = read_draw(fields);
    if request.match_type.as_str().is_empty() {
        return page_match(db, env, "", "Enter a battery type.", request, None);
    }
    if request.match_location.as_str().is_empty() {
        return page_match(db, env, "", "Enter a destination location.", request, None);
    }
    let n = match parse_positive_int(request.match_count.as_str()) {
        Some(n) => n,
        None => return page_match(
            db,
            env,
            "",
            "Enter how many batteries you need, as a whole number.",
            request,
            None,
        ),
    };
    let count: usize = if n as u128 > usize::MAX as u128 {
        usize::MAX
    } else {
        n as usize
    };
    let cs = candidates(db, env);
    let s = match suggest(&cs, request.match_type.as_str(), count, draw) {
        Ok(s) => s,
        Err(e) => return page_match(db, env, "", e.as_str(), request, None),
    };
    if same(get_str(fields, "confirm"), "yes") {
        return hand_out(db, env, request, draw, &s.battery_ids, now);
    }
    let part = SuggestionPart {
        rows: suggested_rows(&cs, &s.battery_ids),
        mixed: s.mixed,
        count: s.battery_ids.len(),
    };
    assert(is_suggestion(part, s@, cs@));
    page_match(db, env, "", "", request, Some(part))
}

} // verus!
