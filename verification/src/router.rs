//! Where links and forms lead.

use vstd::prelude::*;
use vstd::string::*;
use crate::actions::{
    battery_deleted, battery_purged, battery_reset, battery_restored, details_edited, go_with,
    location_chosen, location_entry_deleted, match_brought_back, match_removed,
    measurement_deleted, reading_submitted, submit_delete, submit_delete_location_entry,
    submit_delete_match, submit_delete_measurement, submit_edit, submit_location, submit_measure,
    submit_purge, submit_reset, submit_restore, submit_return_match, submit_view, view_chosen,
};
use crate::adding::{
    batteries_added, print_one_submitted, print_submitted, submit_add, submit_print,
    submit_print_one, Reply,
};
use crate::batch::{
    batch_measured, batch_moved, settings_cleared, settings_submitted, submit_batch_location,
    submit_batch_measure, submit_settings, submit_settings_reset,
};
use crate::db::{views_of, Db};
use crate::dict::Dict;
use crate::handout::{match_submitted, submit_match};
use crate::helpers::{field, get_str};
use crate::instruments::{
    instrument_edited, instrument_removed, instrument_submitted, mode_edited, mode_removed,
    mode_shifted, mode_submitted, submit_instrument_add, submit_instrument_delete,
    submit_instrument_edit, submit_mode_add, submit_mode_delete, submit_mode_edit,
    submit_mode_move,
};
use crate::json::{json_object, last_value};
use crate::links::{decoded_pairs, parse_query};
use crate::list::{
    asked_page, asked_view, chosen, page_list, remembered, LIST_FILTERS_KEY,
};
use crate::pages::{
    empty_request, is_add_page, is_batch_location_page, is_detail_page, is_empty_batch_page,
    is_instruments_page, is_match_page, is_not_found, is_print_page, is_settings_page,
    list_result, no_request, not_found_result, page_add, page_batch_location,
    page_batch_measure_empty, page_detail, page_instruments, page_match, page_match_log,
    page_print, page_scan, page_settings, pool_of, CommandResult, InstrumentForm, Page,
};
use crate::reads::stored;
use crate::records::setting_saved;
use crate::text::{lemma_views_push, parse_i64, parsed_int, same, split, split_on, views};

verus! {

// ── Paths ───────────────────────────────────────────────────────────────

/// The parts with something in them.
pub open spec fn solid(parts: Seq<Seq<char>>) -> Seq<Seq<char>>
    decreases parts.len(),
{
    if parts.len() == 0 {
        parts
    } else if parts.last().len() == 0 {
        solid(parts.drop_last())
    } else {
        solid(parts.drop_last()).push(parts.last())
    }
}

/// The parts of a path between its slashes.
pub open spec fn segments_of(path: Seq<char>) -> Seq<Seq<char>> {
    solid(split_on(path, '/'))
}

fn segments(path: &str) -> (r: Vec<String>)
    ensures
        views(r@) == segments_of(path@),
{
    let parts = split(path, '/');
    let ghost all = views(parts@);
    let mut out: Vec<String> = Vec::new();
    let mut i: usize = 0;
    assert(views(out@) =~= solid(all.take(0)));
    while i < parts.len()
        invariant
            i <= parts@.len(),
            all == views(parts@),
            views(out@) == solid(all.take(i as int)),
        decreases parts@.len() - i,
    {
        let ghost before = out@;
        assert(all.take(i + 1).drop_last() =~= all.take(i as int));
        assert(all.take(i + 1).last() == parts@[i as int]@);
        if !parts[i].as_str().is_empty() {
            out.push(parts[i].clone());
            proof {
                lemma_views_push(before, out@.last());
            }
        }
        i = i + 1;
    }
    assert(all.take(i as int) =~= all);
    out
}

// ── Links ───────────────────────────────────────────────────────────────

/// The page that a path leads to.
#[derive(Debug, Clone, Copy, PartialEq, Eq, Structural)]
pub enum Route {
    List,
    Add,
    Scan,
    Print,
    Instruments,
    Settings,
    BatchMeasure,
    BatchLocation,
    Match,
    MatchLog,
    Battery(i64),
    Nowhere,
}

pub open spec fn route_of(s: Seq<Seq<char>>) -> Route {
    if s.len() == 0 {
        Route::List
    } else if s.len() == 1 {
        if s[0] == "add"@ {
            Route::Add
        } else if s[0] == "scan"@ {
            Route::Scan
        } else if s[0] == "print"@ {
            Route::Print
        } else if s[0] == "instruments"@ {
            Route::Instruments
        } else if s[0] == "settings"@ {
            Route::Settings
        } else if s[0] == "match"@ {
            Route::Match
        } else {
            Route::Nowhere
        }
    } else if s.len() == 2 {
        if s[0] == "batch"@ && s[1] == "measure"@ {
            Route::BatchMeasure
        } else if s[0] == "batch"@ && s[1] == "location"@ {
            Route::BatchLocation
        } else if s[0] == "match"@ && s[1] == "log"@ {
            Route::MatchLog
        } else if s[0] == "b"@ {
            match parsed_int(s[1]) {
                Some(id) => Route::Battery(id),
                None => Route::Nowhere,
            }
        } else {
            Route::Nowhere
        }
    } else {
        Route::Nowhere
    }
}

fn find_route(s: &Vec<String>) -> (r: Route)
    ensures
        r == route_of(views(s@)),
{
    assert(views(s@).len() == s@.len());
    if s.len() == 0 {
        return Route::List;
    }
    assert(views(s@)[0] == s@[0]@);
    let a = s[0].as_str();
    if s.len() == 1 {
        return if same(a, "add") {
            Route::Add
        } else if same(a, "scan") {
            Route::Scan
        } else if same(a, "print") {
            Route::Print
        } else if same(a, "instruments") {
            Route::Instruments
        } else if same(a, "settings") {
            Route::Settings
        } else if same(a, "match") {
            Route::Match
        } else {
            Route::Nowhere
        };
    }
    if s.len() == 2 {
        assert(views(s@)[1] == s@[1]@);
        let b = s[1].as_str();
        return if same(a, "batch") && same(b, "measure") {
            Route::BatchMeasure
        } else if same(a, "batch") && same(b, "location") {
            Route::BatchLocation
        } else if same(a, "match") && same(b, "log") {
            Route::MatchLog
        } else if same(a, "b") {
            match parse_i64(b) {
                Some(id) => Route::Battery(id),
                None => Route::Nowhere,
            }
        } else {
            Route::Nowhere
        };
    }
    Route::Nowhere
}

/// What a link shows. Only the list changes anything: it remembers its filters.
pub open spec fn shown(
    before: Db,
    after: Db,
    env: Dict<String>,
    path: Seq<char>,
    q: Dict<String>,
    now: Seq<char>,
    today: Seq<char>,
    r: CommandResult,
) -> bool {
    let msg = field(q, "msg"@);
    let error = field(q, "error"@);
    let route = route_of(segments_of(path));
    &&& route != Route::List ==> after == before
    &&& match route {
        Route::List => {
            let f = chosen(q, stored(before@.settings, LIST_FILTERS_KEY@));
            &&& after@ == setting_saved(
                before@,
                LIST_FILTERS_KEY@,
                json_object(remembered(f)),
                now,
            )
            &&& r.framed("Batteries"@, msg, error, ""@)
            &&& r->page matches Page::List(p) && p.shows(
                after,
                env,
                f,
                asked_view(q, after@.settings, env),
                asked_page(q),
            )
        },
        Route::Add => is_add_page(r, after, env, msg, error, Seq::empty()),
        Route::Scan => r.framed("Scan"@, msg, error, ""@) && (r->page matches Page::Scan(p)
            && p.shows(after, today)),
        Route::Print => is_print_page(r, msg, error, ""@, None),
        Route::Instruments => is_instruments_page(r, after, msg, error, InstrumentForm::Closed),
        Route::Settings => is_settings_page(r, after, env, msg, error),
        Route::BatchMeasure => is_empty_batch_page(r, after, today, msg, error),
        Route::BatchLocation => is_batch_location_page(r, after, msg, error, ""@, ""@),
        Route::Match => is_match_page(r, after, env, msg, error, no_request(), None),
        Route::MatchLog => r.framed("Match log"@, msg, error, ""@) && (
        r->page matches Page::MatchLog(p) && views_of(p.matches@) == after@.matches.reverse()
            && p.pool_location@ == pool_of(after, env)),
        Route::Battery(id) => is_detail_page(
            r,
            after,
            env,
            id,
            today,
            field(q, "tab"@),
            field(q, "dialog"@),
            msg,
            error,
        ),
        Route::Nowhere => is_not_found(r, path),
    }
}

/// Shows what a link with these values in its query leads to.
pub fn show(
    db: &mut Db,
    env: &Dict<String>,
    path: &str,
    q: &Dict<String>,
    now: &str,
    today: &str,
) -> (r: CommandResult)
    ensures
        shown(*old(db), *final(db), *env, path@, *q, now@, today@, r),
{
    let msg = get_str(q, "msg");
    let error = get_str(q, "error");
    match find_route(&segments(path)) {
        Route::List => list_result(page_list(db, env, q, now), msg, error),
        Route::Add => {
            let none = Vec::new();
            assert(crate::helpers::value_views(none@) =~= Seq::empty());
            page_add(db, env, msg, error, none)
        },
        Route::Scan => page_scan(db, today, msg, error),
        Route::Print => page_print(msg, error, "", None),
        Route::Instruments => page_instruments(db, msg, error, InstrumentForm::Closed),
        Route::Settings => page_settings(db, env, msg, error),
        Route::BatchMeasure => page_batch_measure_empty(db, today, msg, error),
        Route::BatchLocation => page_batch_location(db, msg, error, "", ""),
        Route::Match => page_match(db, env, msg, error, empty_request(), None),
        Route::MatchLog => page_match_log(db, env, msg, error),
        Route::Battery(id) => page_detail(
            db,
            env,
            id,
            today,
            get_str(q, "tab"),
            get_str(q, "dialog"),
            msg,
            error,
        ),
        Route::Nowhere => not_found_result(path),
    }
}

/// The values of a query, by name.
pub open spec fn is_parsed(q: Dict<String>, query: Seq<char>) -> bool {
    forall|k: Seq<char>| #[trigger]
        crate::rows::opt_text(q.spec_get(k)) == last_value(decoded_pairs(query), k)
}

/// Shows the page that a link leads to. `now` is the time, `today` the date.
pub fn render_page(
    db: &mut Db,
    env: &Dict<String>,
    path: &str,
    query: &str,
    now: &str,
    today: &str,
) -> (r: CommandResult)
    ensures
        exists|q: Dict<String>| #[trigger]
            is_parsed(q, query@) && shown(
                *old(db),
                *final(db),
                *env,
                path@,
                q,
                now@,
                today@,
                r,
            ),
{
    let q = parse_query(query);
    assert(is_parsed(q, query@));
    show(db, env, path, &q, now, today)
}

// ── Forms ───────────────────────────────────────────────────────────────

/// The form that a path stands for, with the numbers in it as they were
/// written.
pub enum Action {
    View,
    Add,
    Print,
    DeleteMeasurement(Seq<char>),
    AddInstrument,
    DeleteInstrument(Seq<char>),
    EditInstrument(Seq<char>),
    AddMode(Seq<char>),
    EditMode(Seq<char>, Seq<char>),
    DeleteMode(Seq<char>),
    MoveMode(Seq<char>),
    BatchMeasure,
    BatchLocation,
    Match,
    DeleteMatch(Seq<char>),
    ReturnMatch(Seq<char>),
    DeleteEntry(Seq<char>),
    Settings,
    ResetSettings,
    Location(Seq<char>),
    Edit(Seq<char>),
    Delete(Seq<char>),
    Purge(Seq<char>),
    Restore(Seq<char>),
    Reset(Seq<char>),
    Measure(Seq<char>),
    PrintOne(Seq<char>),
    Unknown,
}

/// The forms whose path has three parts.
pub open spec fn three_part_action(a: Seq<char>, b: Seq<char>, c: Seq<char>) -> Action {
    if a == "measurement"@ && c == "delete"@ {
        Action::DeleteMeasurement(b)
    } else if a == "instruments"@ && c == "delete"@ {
        Action::DeleteInstrument(b)
    } else if a == "instruments"@ && c == "edit"@ {
        Action::EditInstrument(b)
    } else if a == "match"@ && c == "delete"@ {
        Action::DeleteMatch(b)
    } else if a == "match"@ && c == "return"@ {
        Action::ReturnMatch(b)
    } else if a == "history"@ && c == "delete"@ {
        Action::DeleteEntry(b)
    } else if a == "b"@ {
        if c == "location"@ {
            Action::Location(b)
        } else if c == "edit"@ {
            Action::Edit(b)
        } else if c == "delete"@ {
            Action::Delete(b)
        } else if c == "purge"@ {
            Action::Purge(b)
        } else if c == "restore"@ {
            Action::Restore(b)
        } else if c == "reset"@ {
            Action::Reset(b)
        } else if c == "measure"@ {
            Action::Measure(b)
        } else if c == "print"@ {
            Action::PrintOne(b)
        } else {
            Action::Unknown
        }
    } else {
        Action::Unknown
    }
}

pub open spec fn action_of(s: Seq<Seq<char>>) -> Action {
    if s.len() == 1 {
        if s[0] == "view"@ {
            Action::View
        } else if s[0] == "add"@ {
            Action::Add
        } else if s[0] == "print"@ {
            Action::Print
        } else if s[0] == "match"@ {
            Action::Match
        } else if s[0] == "settings"@ {
            Action::Settings
        } else {
            Action::Unknown
        }
    } else if s.len() == 2 {
        if s[0] == "instruments"@ && s[1] == "add"@ {
            Action::AddInstrument
        } else if s[0] == "batch"@ && s[1] == "measure"@ {
            Action::BatchMeasure
        } else if s[0] == "batch"@ && s[1] == "location"@ {
            Action::BatchLocation
        } else if s[0] == "settings"@ && s[1] == "reset"@ {
            Action::ResetSettings
        } else {
            Action::Unknown
        }
    } else if s.len() == 3 {
        three_part_action(s[0], s[1], s[2])
    } else if s.len() == 4 && s[0] == "instruments"@ && s[2] == "procedures"@ && s[3] == "add"@ {
        Action::AddMode(s[1])
    } else if s.len() == 5 && s[0] == "instruments"@ && s[2] == "procedures"@ {
        if s[4] == "edit"@ {
            Action::EditMode(s[1], s[3])
        } else if s[4] == "delete"@ {
            Action::DeleteMode(s[3])
        } else if s[4] == "move"@ {
            Action::MoveMode(s[3])
        } else {
            Action::Unknown
        }
    } else {
        Action::Unknown
    }
}

/// What a form does, and what comes of it.
pub open spec fn submitted(
    before: Db,
    after: Db,
    env: Dict<String>,
    action: Action,
    fields: Dict<String>,
    now: Seq<char>,
    today: Seq<char>,
    r: Reply,
) -> bool {
    match action {
        Action::Add => batteries_added(before, after, env, fields, now, r),
        Action::Print => after == before && print_submitted(before, env, fields, r),
        Action::PrintOne(id) => after == before && print_one_submitted(before, env, id, r),
        _ => r matches Reply::Done(c) && done(
            before,
            after,
            env,
            action,
            fields,
            now,
            today,
            c,
        ),
    }
}

/// The same for the forms that print nothing.
pub open spec fn done(
    before: Db,
    after: Db,
    env: Dict<String>,
    action: Action,
    fields: Dict<String>,
    now: Seq<char>,
    today: Seq<char>,
    c: CommandResult,
) -> bool {
    match action {
        Action::View => view_chosen(before, after, fields, now, c),
        Action::DeleteMeasurement(id) => measurement_deleted(before, after, id, c),
        Action::AddInstrument => instrument_submitted(before, after, fields, now, c),
        Action::DeleteInstrument(id) => instrument_removed(before, after, id, c),
        Action::EditInstrument(id) => instrument_edited(before, after, id, fields, now, c),
        Action::AddMode(id) => mode_submitted(before, after, id, fields, now, c),
        Action::EditMode(i, m) => mode_edited(before, after, i, m, fields, now, c),
        Action::DeleteMode(id) => mode_removed(before, after, id, c),
        Action::MoveMode(id) => mode_shifted(before, after, id, fields, now, c),
        Action::BatchMeasure => batch_measured(before, after, fields, now, today, c),
        Action::BatchLocation => batch_moved(before, after, env, fields, now, c),
        Action::Match => match_submitted(before, after, env, fields, now, c),
        Action::DeleteMatch(id) => match_removed(before, after, id, c),
        Action::ReturnMatch(id) => match_brought_back(before, after, env, id, now, c),
        Action::DeleteEntry(id) => location_entry_deleted(before, after, id, c),
        Action::Settings => settings_submitted(before, after, env, fields, now, c),
        Action::ResetSettings => settings_cleared(before, after, c),
        Action::Location(id) => location_chosen(before, after, env, id, fields, now, c),
        Action::Edit(id) => details_edited(before, after, id, fields, now, c),
        Action::Delete(id) => battery_deleted(before, after, id, fields, now, c),
        Action::Purge(id) => battery_purged(before, after, id, fields, c),
        Action::Restore(id) => battery_restored(before, after, id, fields, now, c),
        Action::Reset(id) => battery_reset(before, after, id, fields, now, c),
        Action::Measure(id) => reading_submitted(
            before,
            after,
            env,
            id,
            fields,
            now,
            today,
            c,
        ),
        _ => after == before && c.leads("/"@, seq![("error"@, "Unknown action."@)]),
    }
}

fn unknown() -> (r: Reply)
    ensures
        r matches Reply::Done(c) && c.leads("/"@, seq![("error"@, "Unknown action."@)]),
{
    Reply::Done(go_with("/", "error", "Unknown action."))
}

fn submit_battery(
    db: &mut Db,
    env: &Dict<String>,
    id: &str,
    what: &str,
    fields: &Dict<String>,
    now: &str,
    today: &str,
) -> (r: Reply)
    ensures
        submitted(
            *old(db),
            *final(db),
            *env,
            three_part_action("b"@, id@, what@),
            *fields,
            now@,
            today@,
            r,
        ),
{
    proof {
        lemma_first_parts();
    }
    if same(what, "location") {
        Reply::Done(submit_location(db, env, id, fields, now))
    } else if same(what, "edit") {
        Reply::Done(submit_edit(db, id, fields, now))
    } else if same(what, "delete") {
        Reply::Done(submit_delete(db, id, fields, now))
    } else if same(what, "purge") {
        Reply::Done(submit_purge(db, id, fields))
    } else if same(what, "restore") {
        Reply::Done(submit_restore(db, id, fields, now))
    } else if same(what, "reset") {
        Reply::Done(submit_reset(db, id, fields, now))
    } else if same(what, "measure") {
        Reply::Done(submit_measure(db, env, id, fields, now, today))
    } else if same(what, "print") {
        submit_print_one(db, env, id)
    } else {
        unknown()
    }
}

/// The first part of a battery's path is no other first part.
proof fn lemma_first_parts()
    ensures
        "b"@ != "measurement"@,
        "b"@ != "instruments"@,
        "b"@ != "match"@,
        "b"@ != "history"@,
{
    reveal_strlit("b");
    reveal_strlit("measurement");
    reveal_strlit("instruments");
    reveal_strlit("match");
    reveal_strlit("history");
    assert("b"@.len() == 1);
}

fn submit_three(
    db: &mut Db,
    env: &Dict<String>,
    a: &str,
    b: &str,
    c: &str,
    fields: &Dict<String>,
    now: &str,
    today: &str,
) -> (r: Reply)
    ensures
        submitted(
            *old(db),
            *final(db),
            *env,
            three_part_action(a@, b@, c@),
            *fields,
            now@,
            today@,
            r,
        ),
{
    if same(a, "measurement") && same(c, "delete") {
        Reply::Done(submit_delete_measurement(db, b))
    } else if same(a, "instruments") && same(c, "delete") {
        Reply::Done(submit_instrument_delete(db, b))
    } else if same(a, "instruments") && same(c, "edit") {
        Reply::Done(submit_instrument_edit(db, b, fields, now))
    } else if same(a, "match") && same(c, "delete") {
        Reply::Done(submit_delete_match(db, b))
    } else if same(a, "match") && same(c, "return") {
        Reply::Done(submit_return_match(db, env, b, now))
    } else if same(a, "history") && same(c, "delete") {
        Reply::Done(submit_delete_location_entry(db, b))
    } else if same(a, "b") {
        submit_battery(db, env, b, c, fields, now, today)
    } else {
        unknown()
    }
}

fn submit_short(
    db: &mut Db,
    env: &Dict<String>,
    s: &Vec<String>,
    fields: &Dict<String>,
    now: &str,
    today: &str,
) -> (r: Reply)
    requires
        s@.len() <= 2,
    ensures
        submitted(
            *old(db),
            *final(db),
            *env,
            action_of(views(s@)),
            *fields,
            now@,
            today@,
            r,
        ),
{
    assert(views(s@).len() == s@.len());
    if s.len() == 1 {
        assert(views(s@)[0] == s@[0]@);
        let a = s[0].as_str();
        return if same(a, "view") {
            Reply::Done(submit_view(db, fields, now))
        } else if same(a, "add") {
            submit_add(db, env, fields, now)
        } else if same(a, "print") {
            submit_print(db, env, fields)
        } else if same(a, "match") {
            Reply::Done(submit_match(db, env, fields, now))
        } else if same(a, "settings") {
            Reply::Done(submit_settings(db, env, fields, now))
        } else {
            unknown()
        };
    }
    if s.len() == 2 {
        assert(views(s@)[0] == s@[0]@ && views(s@)[1] == s@[1]@);
        let a = s[0].as_str();
        let b = s[1].as_str();
        return if same(a, "instruments") && same(b, "add") {
            Reply::Done(submit_instrument_add(db, fields, now))
        } else if same(a, "batch") && same(b, "measure") {
            Reply::Done(submit_batch_measure(db, fields, now, today))
        } else if same(a, "batch") && same(b, "location") {
            Reply::Done(submit_batch_location(db, env, fields, now))
        } else if same(a, "settings") && same(b, "reset") {
            Reply::Done(submit_settings_reset(db))
        } else {
            unknown()
        };
    }
    unknown()
}

fn submit_long(
    db: &mut Db,
    env: &Dict<String>,
    s: &Vec<String>,
    fields: &Dict<String>,
    now: &str,
    today: &str,
) -> (r: Reply)
    requires
        s@.len() >= 4,
    ensures
        submitted(
            *old(db),
            *final(db),
            *env,
            action_of(views(s@)),
            *fields,
            now@,
            today@,
            r,
        ),
{
    assert(views(s@).len() == s@.len());
    assert(forall|i: int| 0 <= i < s@.len() ==> views(s@)[i] == (#[trigger] s@[i])@);
    assert(views(s@)[0] == s@[0]@ && views(s@)[1] == s@[1]@ && views(s@)[2] == s@[2]@);
    assert(views(s@)[3] == s@[3]@);
    if !same(s[0].as_str(), "instruments") || !same(s[2].as_str(), "procedures") {
        return unknown();
    }
    if s.len() == 4 {
        return if same(s[3].as_str(), "add") {
            Reply::Done(submit_mode_add(db, s[1].as_str(), fields, now))
        } else {
            unknown()
        };
    }
    if s.len() == 5 {
        assert(views(s@)[4] == s@[4]@);
        let what = s[4].as_str();
        let mode = s[3].as_str();
        return if same(what, "edit") {
            Reply::Done(submit_mode_edit(db, s[1].as_str(), mode, fields, now))
        } else if same(what, "delete") {
            Reply::Done(submit_mode_delete(db, mode))
        } else if same(what, "move") {
            Reply::Done(submit_mode_move(db, mode, fields, now))
        } else {
            unknown()
        };
    }
    unknown()
}

/// Does what a form asks for. `now` is the time, `today` the date.
pub fn submit_form(
    db: &mut Db,
    env: &Dict<String>,
    path: &str,
    fields: &Dict<String>,
    now: &str,
    today: &str,
) -> (r: Reply)
    ensures
        submitted(
            *old(db),
            *final(db),
            *env,
            action_of(segments_of(path@)),
            *fields,
            now@,
            today@,
            r,
        ),
{
    let s = segments(path);
    assert(views(s@).len() == s@.len());
    if s.len() <= 2 {
        return submit_short(db, env, &s, fields, now, today);
    }
    if s.len() == 3 {
        assert(views(s@)[0] == s@[0]@ && views(s@)[1] == s@[1]@ && views(s@)[2] == s@[2]@);
        return submit_three(
            db,
            env,
            s[0].as_str(),
            s[1].as_str(),
            s[2].as_str(),
            fields,
            now,
            today,
        );
    }
    submit_long(db, env, &s, fields, now, today)
}

} // verus!
