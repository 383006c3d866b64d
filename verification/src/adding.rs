//! What the forms that end in a label do: adding batteries, and printing.
//!
//! A form may ask for labels to be printed before its result is known. It
//! hands out the request, and what comes of printing decides the result.

use vstd::prelude::*;
use vstd::string::*;
use crate::actions::{battery_path, go, go_with, go_with_two, next_of, next_path, path_of};
use crate::db::{row, Db, DbErrorView, DbView};
use crate::dict::Dict;
use crate::helpers::{
    field, fields_to_value, get_str, id_range, id_spec, number_list, number_list_text,
    parse_id_spec, parse_positive_int, positive, values_of, whole_number, RANGE_LIMIT,
};
use crate::links::str_pair_views;
use crate::order::{sorted, Ascending};
use crate::pages::{
    is_add_page, is_print_page, next_number_or_one, next_or_one, page_add, page_print, redirect,
    CommandResult, PrintPreview,
};
use crate::printer::{label_output_is_pdf, printer_status, saves_pdf, status_of};
use crate::reads::numbers_among;
use crate::rows::Battery;
use crate::text::{int_string, int_text, parse_i64, parsed_int, push_int, same, trim, trimmed};
use crate::writes::created;

verus! {

/// What comes of a form: a result, or labels to print first.
#[derive(Debug)]
pub enum Reply {
    Done(CommandResult),
    Print(PrintRequest),
}

/// Labels to print, and the form that asked for them.
#[derive(Debug)]
pub struct PrintRequest {
    pub ids: Vec<i64>,
    pub purpose: Purpose,
}

#[derive(Debug)]
pub enum Purpose {
    /// The batteries were just added; where the form leads when there are
    /// several.
    Added { next: String },
    /// A list of ids was typed.
    Batch { typed: String },
    /// The label of one battery is printed again.
    Again { id: i64 },
}

// ── Adding ──────────────────────────────────────────────────────────────

/// How many batteries are to be added.
pub open spec fn count_typed(fields: Dict<String>) -> i64 {
    match positive(field(fields, "count"@)) {
        Some(n) => if n > RANGE_LIMIT {
            RANGE_LIMIT
        } else {
            n
        },
        None => 1,
    }
}

fn read_count(fields: &Dict<String>) -> (r: i64)
    ensures
        r == count_typed(*fields),
        1 <= r <= RANGE_LIMIT,
{
    match parse_positive_int(get_str(fields, "count")) {
        Some(n) => if n > RANGE_LIMIT {
            RANGE_LIMIT
        } else {
            n
        },
        None => 1,
    }
}

/// The number of the first battery that is added: the one that was typed, or
/// the next free one.
pub open spec fn first_number(db: Db, fields: Dict<String>) -> i64 {
    match positive(field(fields, "battery_id"@)) {
        Some(n) => n,
        None => next_or_one(db),
    }
}

/// Adding the first `n` of some batteries that differ in their numbers alone.
pub open spec fn all_created(
    d: DbView,
    ids: Seq<i64>,
    cell_type: Seq<char>,
    nominal: Option<i64>,
    brand: Seq<char>,
    location: Seq<char>,
    now: Seq<char>,
    n: int,
) -> Result<DbView, DbErrorView>
    decreases n,
{
    if n <= 0 {
        Ok(d)
    } else {
        match all_created(d, ids, cell_type, nominal, brand, location, now, n - 1) {
            Err(e) => Err(e),
            Ok(e) => match created(e, ids[n - 1], cell_type, nominal, brand, location, ""@, now) {
                Ok((f, _)) => Ok(f),
                Err(why) => Err(why),
            },
        }
    }
}

proof fn lemma_first_refused(
    d: DbView,
    ids: Seq<i64>,
    cell_type: Seq<char>,
    nominal: Option<i64>,
    brand: Seq<char>,
    location: Seq<char>,
    now: Seq<char>,
    n: int,
    all: int,
)
    requires
        0 <= n <= all,
        all_created(d, ids, cell_type, nominal, brand, location, now, n) is Err,
    ensures
        all_created(d, ids, cell_type, nominal, brand, location, now, all) == all_created(
            d,
            ids,
            cell_type,
            nominal,
            brand,
            location,
            now,
            n,
        ),
    decreases all - n,
{
    if n < all {
        lemma_first_refused(d, ids, cell_type, nominal, brand, location, now, n, all - 1);
    }
}

/// Adds batteries, all of them or none.
fn create_all(
    db: &mut Db,
    ids: &Vec<i64>,
    cell_type: &str,
    nominal: Option<i64>,
    brand: &str,
    location: &str,
    now: &str,
) -> (r: Result<(), String>)
    ensures
        ({
            let outcome = all_created(
                old(db)@,
                ids@,
                cell_type@,
                nominal,
                brand@,
                location@,
                now@,
                ids@.len() as int,
            );
            match r {
                Ok(_) => outcome == Ok::<DbView, DbErrorView>(final(db)@),
                Err(e) => *final(db) == *old(db) && (outcome matches Err(why) && e@ == why.text()),
            }
        }),
{
    let mut draft = db.clone();
    let mut i: usize = 0;
    while i < ids.len()
        invariant
            i <= ids@.len(),
            *db == *old(db),
            all_created(
                old(db)@,
                ids@,
                cell_type@,
                nominal,
                brand@,
                location@,
                now@,
                i as int,
            ) == Ok::<DbView, DbErrorView>(draft@),
        decreases ids@.len() - i,
    {
        match draft.create(ids[i], cell_type, nominal, brand, location, "", now) {
            Ok(_) => {},
            Err(e) => {
                proof {
                    lemma_first_refused(
                        old(db)@,
                        ids@,
                        cell_type@,
                        nominal,
                        brand@,
                        location@,
                        now@,
                        i + 1,
                        ids@.len() as int,
                    );
                }
                return Err(e.message());
            },
        }
        i = i + 1;
    }
    *db = draft;
    Ok(())
}

/// What was wrong with printing labels, in words.
pub open spec fn unprinted_text(n: int, why: Option<Seq<char>>) -> Seq<char> {
    match why {
        None => ""@,
        Some(e) => if n == 1 {
            "The label could not be printed: "@ + e
        } else {
            "The labels could not be printed: "@ + e
        },
    }
}

/// The result of adding batteries: one leads to its page, several lead on. The
/// ids to save as a file go along, and so does what went wrong with printing.
pub open spec fn is_added(
    r: CommandResult,
    ids: Seq<i64>,
    next: Seq<char>,
    pdf_ids: Seq<char>,
    why: Option<Seq<char>>,
) -> bool {
    let n = ids.len() as int;
    let more = seq![("save_pdf_ids"@, pdf_ids), ("error"@, unprinted_text(n, why))];
    if n == 1 {
        r.leads(battery_path(ids[0]), seq![("msg"@, "Battery added."@)] + more)
    } else {
        r.leads(next, seq![("msg"@, int_text(n) + " batteries added."@)] + more)
    }
}

fn added(ids: &Vec<i64>, next: &str, pdf_ids: &str, why: Option<&str>) -> (r: CommandResult)
    ensures
        is_added(r, ids@, next@, pdf_ids@, crate::writes::opt_str(why)),
{
    let n = ids.len();
    let mut error = "".to_string();
    if let Some(e) = why {
        error = if n == 1 {
            "The label could not be printed: ".to_string()
        } else {
            "The labels could not be printed: ".to_string()
        };
        error.append(e);
    }
    let ghost more = seq![
        ("save_pdf_ids"@, pdf_ids@),
        ("error"@, unprinted_text(n as int, crate::writes::opt_str(why))),
    ];
    if n == 1 {
        let pairs: Vec<(&str, &str)> = vec![
            ("msg", "Battery added."),
            ("save_pdf_ids", pdf_ids),
            ("error", error.as_str()),
        ];
        assert(str_pair_views(pairs@) =~= seq![("msg"@, "Battery added."@)] + more);
        return redirect(path_of(ids[0]).as_str(), &pairs);
    }
    let mut msg = String::new();
    push_int(&mut msg, n as i128);
    assert(msg@ =~= int_text(n as int));
    msg.append(" batteries added.");
    let pairs: Vec<(&str, &str)> = vec![
        ("msg", msg.as_str()),
        ("save_pdf_ids", pdf_ids),
        ("error", error.as_str()),
    ];
    assert(str_pair_views(pairs@) =~= seq![("msg"@, int_text(n as int) + " batteries added."@)]
        + more);
    redirect(next, &pairs)
}

/// The page to add batteries again, with what was wrong.
pub open spec fn is_refused(
    r: Reply,
    db: Db,
    env: Dict<String>,
    error: Seq<char>,
    fields: Dict<String>,
) -> bool {
    r matches Reply::Done(c) && is_add_page(c, db, env, ""@, error, values_of(fields))
}

fn refused(db: &Db, env: &Dict<String>, error: &str, fields: &Dict<String>) -> (r: Reply)
    ensures
        is_refused(r, *db, *env, error@, *fields),
{
    Reply::Done(page_add(db, env, "", error, fields_to_value(fields)))
}

/// Adding batteries: all of them or none. Their labels are saved as a file or
/// printed, where that was asked for and there is a printer.
pub open spec fn batteries_added(
    before: Db,
    after: Db,
    env: Dict<String>,
    fields: Dict<String>,
    now: Seq<char>,
    r: Reply,
) -> bool {
    let cell_type = trimmed(field(fields, "type"@));
    let count = count_typed(fields);
    let start = first_number(before, fields);
    let ids = id_range(start, (start + count - 1) as i64);
    let taken = sorted(Ascending, numbers_among(before.batteries@, ids));
    if cell_type.len() == 0 {
        after == before && is_refused(r, after, env, "A type is required."@, fields)
    } else if start + count - 1 > i64::MAX {
        after == before && is_refused(r, after, env, DbErrorView::Full.text(), fields)
    } else if taken.len() > 0 {
        after == before && is_refused(
            r,
            after,
            env,
            "Id(s) already in use: "@ + number_list_text(taken, ", "@) + "."@,
            fields,
        )
    } else {
        match all_created(
            before@,
            ids,
            cell_type,
            parsed_int(trimmed(field(fields, "nominal_mah"@))),
            field(fields, "brand"@),
            field(fields, "location"@),
            now,
            ids.len() as int,
        ) {
            Err(e) => after == before && is_refused(r, after, env, e.text(), fields),
            Ok(d) => {
                let print = fields.spec_contains("print_label"@);
                let pdf = saves_pdf(d.settings, env);
                &&& after@ == d
                &&& if print && !pdf && status_of(d.settings, env).0 {
                    r matches Reply::Print(p) && p.ids@ == ids && (
                    p.purpose matches Purpose::Added { next } && next@ == next_of(fields))
                } else {
                    r matches Reply::Done(c) && is_added(
                        c,
                        ids,
                        next_of(fields),
                        if print && pdf {
                            number_list_text(ids, ","@)
                        } else {
                            ""@
                        },
                        None,
                    )
                }
            },
        }
    }
}

fn numbers(start: i64, count: i64) -> (r: Vec<i64>)
    requires
        1 <= count,
        start + count - 1 <= i64::MAX,
    ensures
        r@ == id_range(start, (start + count - 1) as i64),
        r@.len() == count,
{
    let last: i64 = start + (count - 1);
    let mut out: Vec<i64> = Vec::new();
    let mut id: i64 = start;
    while id < last
        invariant
            start <= id <= last,
            out@ == id_range(start, last).take(id - start),
        decreases last - id,
    {
        out.push(id);
        assert(out@ =~= id_range(start, last).take(id + 1 - start));
        id = id + 1;
    }
    out.push(last);
    assert(out@ =~= id_range(start, last));
    out
}

pub fn submit_add(db: &mut Db, env: &Dict<String>, fields: &Dict<String>, now: &str) -> (r: Reply)
    ensures
        batteries_added(*old(db), *final(db), *env, *fields, now@, r),
{
    let count = read_count(fields);
    let cell_type = trim(get_str(fields, "type"));
    if cell_type.is_empty() {
        return refused(db, env, "A type is required.", fields);
    }
    let start: i64 = match parse_positive_int(get_str(fields, "battery_id")) {
        Some(n) => n,
        None => next_number_or_one(db),
    };
    if start as i128 + count as i128 - 1 > i64::MAX as i128 {
        return refused(db, env, crate::db::DbError::Full.message().as_str(), fields);
    }
    let ids = numbers(start, count);
    if let Ok(taken) = db.ids_in_use(&ids) {
        if taken.len() > 0 {
            let mut m = "Id(s) already in use: ".to_string();
            m.append(number_list(&taken, ", ").as_str());
            m.append(".");
            return refused(db, env, m.as_str(), fields);
        }
    }
    let nominal = whole_number(get_str(fields, "nominal_mah"));
    if let Err(e) = create_all(
        db,
        &ids,
        cell_type,
        nominal,
        get_str(fields, "brand"),
        get_str(fields, "location"),
        now,
    ) {
        return refused(db, env, e.as_str(), fields);
    }
    let next = next_path(fields);
    if fields.contains_key("print_label") {
        if label_output_is_pdf(db, env) {
            let list = number_list(&ids, ",");
            return Reply::Done(added(&ids, next.as_str(), list.as_str(), None));
        }
        if printer_status(db, env).available {
            return Reply::Print(PrintRequest { ids, purpose: Purpose::Added { next } });
        }
    }
    Reply::Done(added(&ids, next.as_str(), "", None))
}

// ── Printing ────────────────────────────────────────────────────────────

/// What the first `n` of some ids stand for: batteries that can be printed,
/// ids without a battery, and ids of deleted ones.
pub open spec fn resolved(rows: Seq<Battery>, ids: Seq<i64>, n: int) -> (
    Seq<Battery>,
    Seq<i64>,
    Seq<i64>,
)
    decreases n,
{
    if n <= 0 {
        (Seq::empty(), Seq::empty(), Seq::empty())
    } else {
        let (found, missing, deleted) = resolved(rows, ids, n - 1);
        match row(rows, ids[n - 1]) {
            None => (found, missing.push(ids[n - 1]), deleted),
            Some(b) => if b.deleted_at is Some {
                (found, missing, deleted.push(ids[n - 1]))
            } else {
                (found.push(b), missing, deleted)
            },
        }
    }
}

pub open spec fn numbers_of(bs: Seq<Battery>) -> Seq<i64> {
    bs.map_values(|b: Battery| b.id)
}

fn resolve(db: &Db, ids: &Vec<i64>) -> (r: PrintPreview)
    ensures
        (r.resolved@, r.missing@, r.deleted@) == resolved(
            db.batteries@,
            ids@,
            ids@.len() as int,
        ),
{
    let mut found: Vec<Battery> = Vec::new();
    let mut missing: Vec<i64> = Vec::new();
    let mut deleted: Vec<i64> = Vec::new();
    let mut i: usize = 0;
    proof {
        let start = resolved(db.batteries@, ids@, 0);
        assert(found@ =~= start.0 && missing@ =~= start.1 && deleted@ =~= start.2);
    }
    while i < ids.len()
        invariant
            i <= ids@.len(),
            (found@, missing@, deleted@) == resolved(db.batteries@, ids@, i as int),
        decreases ids@.len() - i,
    {
        match db.get(ids[i]) {
            Ok(Some(b)) => {
                if b.deleted_at.is_some() {
                    deleted.push(ids[i]);
                } else {
                    found.push(b);
                }
            },
            _ => {
                missing.push(ids[i]);
            },
        }
        i = i + 1;
    }
    PrintPreview { resolved: found, missing, deleted }
}

fn numbers_in(bs: &Vec<Battery>) -> (r: Vec<i64>)
    ensures
        r@ == numbers_of(bs@),
{
    let mut out: Vec<i64> = Vec::new();
    let mut i: usize = 0;
    while i < bs.len()
        invariant
            i <= bs@.len(),
            out@ == numbers_of(bs@).take(i as int),
        decreases bs@.len() - i,
    {
        out.push(bs[i].id);
        assert(out@ =~= numbers_of(bs@).take(i + 1));
        i = i + 1;
    }
    assert(numbers_of(bs@).take(i as int) =~= numbers_of(bs@));
    out
}

/// Printing a list of labels: what the list comes to is shown first, and it is
/// printed or saved as a file once that was confirmed.
pub open spec fn print_submitted(db: Db, env: Dict<String>, fields: Dict<String>, r: Reply) -> bool {
    let typed = field(fields, "spec"@);
    match id_spec(typed) {
        Err(e) => r matches Reply::Done(c) && is_print_page(c, ""@, e, typed, None),
        Ok(ids) => {
            let (found, missing, deleted) = resolved(db.batteries@, ids, ids.len() as int);
            if field(fields, "confirm"@) == "yes"@ && found.len() > 0 {
                if saves_pdf(db@.settings, env) {
                    r matches Reply::Done(c) && c.leads(
                        "/print"@,
                        seq![("save_pdf_ids"@, number_list_text(numbers_of(found), ","@))],
                    )
                } else {
                    r matches Reply::Print(p) && p.ids@ == numbers_of(found) && (
                    p.purpose matches Purpose::Batch { typed: t } && t@ == typed)
                }
            } else {
                r matches Reply::Done(c) && exists|p: PrintPreview|
                    p.resolved@ == found && p.missing@ == missing && p.deleted@ == deleted
                        && #[trigger] is_print_page(c, ""@, ""@, typed, Some(p))
            }
        },
    }
}

pub fn submit_print(db: &Db, env: &Dict<String>, fields: &Dict<String>) -> (r: Reply)
    ensures
        print_submitted(*db, *env, *fields, r),
{
    let typed = get_str(fields, "spec");
    let ids = match parse_id_spec(typed) {
        Ok(ids) => ids,
        Err(e) => return Reply::Done(page_print("", e.as_str(), typed, None)),
    };
    let preview = resolve(db, &ids);
    if same(get_str(fields, "confirm"), "yes") && preview.resolved.len() > 0 {
        let ids = numbers_in(&preview.resolved);
        if label_output_is_pdf(db, env) {
            let list = number_list(&ids, ",");
            return Reply::Done(go_with("/print", "save_pdf_ids", list.as_str()));
        }
        return Reply::Print(
            PrintRequest { ids, purpose: Purpose::Batch { typed: typed.to_string() } },
        );
    }
    Reply::Done(page_print("", "", typed, Some(preview)))
}

/// Printing the label of one battery again.
pub open spec fn print_one_submitted(db: Db, env: Dict<String>, id: Seq<char>, r: Reply) -> bool {
    match parsed_int(id) {
        None => r matches Reply::Done(c) && c.leads("/"@, Seq::empty()),
        Some(id) => if saves_pdf(db@.settings, env) {
            r matches Reply::Done(c) && c.leads(
                battery_path(id),
                seq![("tab"@, "maintenance"@), ("save_pdf_ids"@, int_text(id as int))],
            )
        } else {
            r matches Reply::Print(p) && p.ids@ == seq![id] && p.purpose == (Purpose::Again { id })
        },
    }
}

pub fn submit_print_one(db: &Db, env: &Dict<String>, id: &str) -> (r: Reply)
    ensures
        print_one_submitted(*db, *env, id@, r),
{
    let id = match parse_i64(id) {
        Some(id) => id,
        None => return Reply::Done(go("/")),
    };
    if label_output_is_pdf(db, env) {
        return Reply::Done(
            go_with_two(
                path_of(id).as_str(),
                "tab",
                "maintenance",
                "save_pdf_ids",
                int_string(id).as_str(),
            ),
        );
    }
    let ids = vec![id];
    assert(ids@ =~= seq![id]);
    Reply::Print(PrintRequest { ids, purpose: Purpose::Again { id } })
}

/// What a form comes to once its labels were printed, or were not.
pub open spec fn is_printed(
    r: CommandResult,
    ids: Seq<i64>,
    purpose: Purpose,
    why: Option<Seq<char>>,
) -> bool {
    match purpose {
        Purpose::Added { next } => is_added(r, ids, next@, ""@, why),
        Purpose::Batch { typed } => match why {
            None => r.leads(
                "/print"@,
                seq![("msg"@, int_text(ids.len() as int) + " label(s) printed."@)],
            ),
            Some(e) => is_print_page(r, ""@, e, typed@, None),
        },
        Purpose::Again { id } => match why {
            None => r.leads(
                battery_path(id),
                seq![("tab"@, "maintenance"@), ("msg"@, "Label sent to the printer."@)],
            ),
            Some(e) => r.leads(battery_path(id), seq![("tab"@, "maintenance"@), ("error"@, e)]),
        },
    }
}

/// The result of a form whose labels were printed; `result` says how that went.
pub fn after_print(request: &PrintRequest, result: Result<(), String>) -> (r: CommandResult)
    ensures
        is_printed(
            r,
            request.ids@,
            request.purpose,
            match result {
                Ok(_) => None,
                Err(e) => Some(e@),
            },
        ),
{
    match &request.purpose {
        Purpose::Added { next } => match &result {
            Ok(_) => added(&request.ids, next.as_str(), "", None),
            Err(e) => added(&request.ids, next.as_str(), "", Some(e.as_str())),
        },
        Purpose::Batch { typed } => match &result {
            Ok(_) => {
                let mut m = String::new();
                push_int(&mut m, request.ids.len() as i128);
                assert(m@ =~= int_text(request.ids@.len() as int));
                m.append(" label(s) printed.");
                go_with("/print", "msg", m.as_str())
            },
            Err(e) => page_print("", e.as_str(), typed.as_str(), None),
        },
        Purpose::Again { id } => match &result {
            Ok(_) => go_with_two(
                path_of(*id).as_str(),
                "tab",
                "maintenance",
                "msg",
                "Label sent to the printer.",
            ),
            Err(e) => go_with_two(
                path_of(*id).as_str(),
                "tab",
                "maintenance",
                "error",
                e.as_str(),
            ),
        },
    }
}

} // verus!
