//! The page that lists the batteries.

use std::collections::HashMap;
use vstd::prelude::*;
use vstd::string::*;
use crate::config::{get, value_of};
use crate::db::Db;
use crate::dict::Dict;
use crate::health::{retention_of, summarise};
use crate::helpers::{page_numbers, paging};
use crate::json::{
    each_key_once, json_field, json_object, last_value, object_text, pair_views, text_field,
};
use crate::links::{filled, query_of, query_string, str_pair_views};
use crate::order::{
    dated_before, dated_le, lemma_dated_total, lemma_dated_trans, sort, sorted, Alphabetical, Order,
};
use crate::reads::{listed, next_number, readings, stored, values_in, Column};
use crate::records::setting_saved;
use crate::rows::{Battery, SettingView};
use crate::select::{kept, select, Duplicate, Test};
use crate::text::{
    before, int_string, int_text, join, joined, lemma_views_push, parse_i64, parsed_int, push_int,
    same, text_lt, views,
};
use crate::view::{
    are_limits, battery_row, instrument_names, ir_limits, latest_resistance, lemma_limit_set,
    limit_set, over_limit, BatteryRow,
};

verus! {

// ── Filters ─────────────────────────────────────────────────────────────

/// The settings key under which the filters of the list are remembered.
pub const LIST_FILTERS_KEY: &'static str = "list_filters";

/// Which batteries the list shows, and in which order.
#[derive(Debug)]
pub struct Filters {
    pub show: String,
    pub type_filter: String,
    pub location_filter: String,
    pub search: String,
    pub sort: String,
}

#[verifier::ext_equal]
pub struct FiltersView {
    pub show: Seq<char>,
    pub type_filter: Seq<char>,
    pub location_filter: Seq<char>,
    pub search: Seq<char>,
    pub sort: Seq<char>,
}

impl View for Filters {
    type V = FiltersView;

    open spec fn view(&self) -> FiltersView {
        FiltersView {
            show: self.show@,
            type_filter: self.type_filter@,
            location_filter: self.location_filter@,
            search: self.search@,
            sort: self.sort@,
        }
    }
}

pub open spec fn is_scope(s: Seq<char>) -> bool {
    s == "active"@ || s == "deleted"@ || s == "all"@ || s == "flagged"@
}

pub open spec fn is_sort(s: Seq<char>) -> bool {
    s == "id"@ || s == "type"@ || s == "location"@ || s == "health"@ || s == "resistance"@
}

/// What the query says under a key, or else what is remembered under it.
pub open spec fn asked_or_saved(
    q: Dict<String>,
    saved: Option<Seq<char>>,
    key: Seq<char>,
) -> Seq<char> {
    match q.spec_get(key) {
        Some(s) => s@,
        None => match saved {
            Some(text) => match json_field(text, key) {
                Some(s) => s,
                None => Seq::empty(),
            },
            None => Seq::empty(),
        },
    }
}

/// Filters as they were asked for; of what the list cannot show or sort by, the
/// usual one.
pub open spec fn understood(f: FiltersView) -> FiltersView {
    FiltersView {
        show: if is_scope(f.show) {
            f.show
        } else {
            "active"@
        },
        sort: if is_sort(f.sort) {
            f.sort
        } else {
            "id"@
        },
        ..f
    }
}

/// The filters that a query asks for, with those that are remembered where it
/// says nothing.
pub open spec fn chosen(q: Dict<String>, saved: Option<Seq<char>>) -> FiltersView {
    understood(
        FiltersView {
            show: asked_or_saved(q, saved, "show"@),
            type_filter: asked_or_saved(q, saved, "type"@),
            location_filter: asked_or_saved(q, saved, "location"@),
            search: asked_or_saved(q, saved, "q"@),
            sort: asked_or_saved(q, saved, "sort"@),
        },
    )
}

fn ask(q: &Dict<String>, saved: &Option<String>, key: &str) -> (r: String)
    ensures
        r@ == asked_or_saved(*q, crate::rows::opt_text(*saved), key@),
{
    if let Some(s) = q.get(key) {
        return s.clone();
    }
    if let Some(text) = saved {
        if let Some(s) = text_field(text.as_str(), key) {
            return s;
        }
    }
    let r = String::new();
    assert(r@ =~= Seq::<char>::empty());
    r
}

/// Puts the usual scope and order in place of those that the list does not
/// know.
pub fn understand(f: Filters) -> (r: Filters)
    ensures
        r@ == understood(f@),
{
    let show = if same(f.show.as_str(), "active") || same(f.show.as_str(), "deleted") || same(
        f.show.as_str(),
        "all",
    ) || same(f.show.as_str(), "flagged") {
        f.show
    } else {
        "active".to_string()
    };
    let by = if same(f.sort.as_str(), "id") || same(f.sort.as_str(), "type") || same(
        f.sort.as_str(),
        "location",
    ) || same(f.sort.as_str(), "health") || same(f.sort.as_str(), "resistance") {
        f.sort
    } else {
        "id".to_string()
    };
    Filters {
        show,
        type_filter: f.type_filter,
        location_filter: f.location_filter,
        search: f.search,
        sort: by,
    }
}

pub fn choose_filters(q: &Dict<String>, saved: &Option<String>) -> (r: Filters)
    ensures
        r@ == chosen(*q, crate::rows::opt_text(*saved)),
{
    understand(
        Filters {
            show: ask(q, saved, "show"),
            type_filter: ask(q, saved, "type"),
            location_filter: ask(q, saved, "location"),
            search: ask(q, saved, "q"),
            sort: ask(q, saved, "sort"),
        },
    )
}

/// The filters as they are remembered.
pub open spec fn remembered(f: FiltersView) -> Seq<(Seq<char>, Seq<char>)> {
    seq![
        ("show"@, f.show),
        ("type"@, f.type_filter),
        ("location"@, f.location_filter),
        ("q"@, f.search),
        ("sort"@, f.sort),
    ]
}

/// The text under which the filters are remembered. From it they come back for
/// a query that says nothing of them.
pub fn filters_text(f: &Filters) -> (r: String)
    ensures
        r@ == json_object(remembered(f@)),
        is_scope(f@.show) && is_sort(f@.sort) ==> forall|q: Dict<String>|
            (forall|k: Seq<char>| #[trigger] q.spec_get(k) is None) ==> #[trigger] chosen(
                q,
                Some(r@),
            ) == f@,
{
    let pairs = vec![
        ("show".to_string(), f.show.clone()),
        ("type".to_string(), f.type_filter.clone()),
        ("location".to_string(), f.location_filter.clone()),
        ("q".to_string(), f.search.clone()),
        ("sort".to_string(), f.sort.clone()),
    ];
    assert(pair_views(pairs@) =~= remembered(f@));
    let r = object_text(&pairs);
    proof {
        lemma_remembered(f@);
    }
    r
}

/// Every filter is remembered under its own key.
proof fn lemma_remembered(f: FiltersView)
    ensures
        each_key_once(remembered(f)),
        last_value(remembered(f), "show"@) == Some(f.show),
        last_value(remembered(f), "type"@) == Some(f.type_filter),
        last_value(remembered(f), "location"@) == Some(f.location_filter),
        last_value(remembered(f), "q"@) == Some(f.search),
        last_value(remembered(f), "sort"@) == Some(f.sort),
{
    reveal_strlit("show");
    reveal_strlit("type");
    reveal_strlit("location");
    reveal_strlit("q");
    reveal_strlit("sort");
    assert("show"@[0] == 's' && "show"@[1] == 'h' && "type"@[0] == 't' && "location"@[0] == 'l');
    assert("q"@[0] == 'q' && "sort"@[0] == 's' && "sort"@[1] == 'o');
    reveal_with_fuel(last_value, 6);
    let s = remembered(f);
    let s4 = s.drop_last();
    let s3 = s4.drop_last();
    let s2 = s3.drop_last();
    let s1 = s2.drop_last();
    assert(s.last() == ("sort"@, f.sort) && s4.last() == ("q"@, f.search));
    assert(s3.last() == ("location"@, f.location_filter) && s2.last() == ("type"@, f.type_filter));
    assert(s1.last() == ("show"@, f.show));
}

// ── Entries ─────────────────────────────────────────────────────────────

/// A battery and what the list goes by when it picks and sorts.
#[derive(Debug)]
pub struct Entry {
    pub battery: Battery,
    pub health: Option<i64>,
    pub resistance: Option<i64>,
    pub over: bool,
}

impl Duplicate for Entry {
    fn duplicate(&self) -> (r: Self) {
        Entry {
            battery: self.battery.clone(),
            health: self.health,
            resistance: self.resistance,
            over: self.over,
        }
    }
}

pub open spec fn entry_of(b: Battery, db: Db, env: Dict<String>) -> Entry {
    let ms = readings(db.measurements@, b.id);
    Entry {
        battery: b,
        health: retention_of(b.nominal_mah, ms),
        resistance: latest_resistance(ms),
        over: over_limit(ms, limit_set(b.cell_type@, db@.settings, env)),
    }
}

/// The batteries that pass the filters, by number.
pub open spec fn entries(
    db: Db,
    env: Dict<String>,
    type_filter: Seq<char>,
    location_filter: Seq<char>,
    search: Seq<char>,
    show: Seq<char>,
) -> Seq<Entry> {
    listed(db.batteries@, type_filter, location_filter, search, show, "id"@).map_values(
        |b: Battery| entry_of(b, db, env),
    )
}

/// What is looked up once for a whole list.
pub struct Terms {
    pub limits: Dict<i64>,
    pub names: HashMap<i64, String>,
    pub health_limit: i64,
}

impl Terms {
    pub open spec fn fit(&self, db: Db, env: Dict<String>) -> bool {
        &&& are_limits(self.limits, db@.settings, env)
        &&& self.health_limit == health_limit_of(db, env)
    }
}

pub open spec fn health_limit_of(db: Db, env: Dict<String>) -> i64 {
    value_of(db@.settings, env, "health_limit_pct"@).number()
}

pub fn terms(db: &Db, env: &Dict<String>) -> (r: Terms)
    ensures
        r.fit(*db, *env),
        r.names@ == crate::view::names_of(*db),
{
    Terms {
        limits: ir_limits(db, env),
        names: instrument_names(db),
        health_limit: get(db, env, "health_limit_pct").as_i64(),
    }
}

fn entry(b: &Battery, db: &Db, Ghost(env): Ghost<Dict<String>>, terms: &Terms) -> (r: Entry)
    requires
        terms.fit(*db, env),
    ensures
        r == entry_of(*b, *db, env),
{
    let ms = match db.measurements(b.id) {
        Ok(v) => v,
        Err(_) => Vec::new(),
    };
    let s = summarise(b, &ms, &terms.limits, Some(terms.health_limit), &terms.names);
    proof {
        lemma_limit_set(b.cell_type@, terms.limits, db@.settings, env);
    }
    Entry {
        battery: b.clone(),
        health: s.retention,
        resistance: match &s.ir_latest {
            Some(m) => m.ir_mohm,
            None => None,
        },
        over: s.ir_over_limit,
    }
}

fn collect(
    db: &Db,
    Ghost(env): Ghost<Dict<String>>,
    terms: &Terms,
    type_filter: &str,
    location_filter: &str,
    search: &str,
    show: &str,
) -> (r: Vec<Entry>)
    requires
        terms.fit(*db, env),
    ensures
        r@ == entries(*db, env, type_filter@, location_filter@, search@, show@),
{
    let list = match db.list_batteries(
        type_filter,
        location_filter,
        search,
        show,
        "id",
        None,
        0,
    ) {
        Ok(v) => v,
        Err(_) => Vec::new(),
    };
    let ghost all = entries(*db, env, type_filter@, location_filter@, search@, show@);
    let mut out: Vec<Entry> = Vec::new();
    let mut i: usize = 0;
    while i < list.len()
        invariant
            i <= list@.len(),
            terms.fit(*db, env),
            all == list@.map_values(|b: Battery| entry_of(b, *db, env)),
            out@ == all.take(i as int),
        decreases list@.len() - i,
    {
        out.push(entry(&list[i], db, Ghost(env), terms));
        assert(out@ =~= all.take(i + 1));
        i = i + 1;
    }
    assert(all.take(i as int) =~= all);
    out
}

/// A battery that needs looking at: its health is below the limit, or its
/// resistance reaches it.
pub struct Flagged {
    pub health_limit: i64,
}

impl Test<Entry> for Flagged {
    open spec fn holds(&self, e: Entry) -> bool {
        (e.health matches Some(h) && h < self.health_limit) || e.over
    }

    fn check(&self, e: &Entry) -> (r: bool) {
        match e.health {
            Some(h) => h < self.health_limit || e.over,
            None => e.over,
        }
    }
}

/// What the list can be sorted by.
#[derive(Debug, Clone, Copy, PartialEq, Eq, Structural)]
pub enum SortKey {
    Id,
    CellType,
    Location,
    Health,
    Resistance,
}

pub open spec fn sort_key(sort: Seq<char>) -> SortKey {
    if sort == "type"@ {
        SortKey::CellType
    } else if sort == "location"@ {
        SortKey::Location
    } else if sort == "health"@ {
        SortKey::Health
    } else if sort == "resistance"@ {
        SortKey::Resistance
    } else {
        SortKey::Id
    }
}

fn key_of(sort: &str) -> (r: SortKey)
    ensures
        r == sort_key(sort@),
{
    if same(sort, "type") {
        SortKey::CellType
    } else if same(sort, "location") {
        SortKey::Location
    } else if same(sort, "health") {
        SortKey::Health
    } else if same(sort, "resistance") {
        SortKey::Resistance
    } else {
        SortKey::Id
    }
}

/// The order of the list: worst health first, highest resistance first, and
/// behind those the batteries of which it is not known.
pub struct ListOrder {
    pub key: SortKey,
}

impl Order<Entry> for ListOrder {
    open spec fn le(&self, a: Entry, b: Entry) -> bool {
        match self.key {
            SortKey::Id => a.battery.id <= b.battery.id,
            SortKey::CellType => dated_le(
                a.battery.cell_type@,
                a.battery.id,
                b.battery.cell_type@,
                b.battery.id,
            ),
            SortKey::Location => dated_le(
                a.battery.location@,
                a.battery.id,
                b.battery.location@,
                b.battery.id,
            ),
            SortKey::Health => match (a.health, b.health) {
                (Some(x), Some(y)) => x <= y,
                (Some(_), None) => true,
                (None, Some(_)) => false,
                (None, None) => a.battery.id <= b.battery.id,
            },
            SortKey::Resistance => match (a.resistance, b.resistance) {
                (Some(x), Some(y)) => y <= x,
                (Some(_), None) => true,
                (None, Some(_)) => false,
                (None, None) => a.battery.id <= b.battery.id,
            },
        }
    }

    proof fn total(&self, a: Entry, b: Entry) {
        lemma_dated_total(a.battery.cell_type@, a.battery.id, b.battery.cell_type@, b.battery.id);
        lemma_dated_total(a.battery.location@, a.battery.id, b.battery.location@, b.battery.id);
    }

    proof fn trans(&self, a: Entry, b: Entry, c: Entry) {
        if self.key == SortKey::CellType {
            lemma_dated_trans(
                a.battery.cell_type@,
                a.battery.id,
                b.battery.cell_type@,
                b.battery.id,
                c.battery.cell_type@,
                c.battery.id,
            );
        }
        if self.key == SortKey::Location {
            lemma_dated_trans(
                a.battery.location@,
                a.battery.id,
                b.battery.location@,
                b.battery.id,
                c.battery.location@,
                c.battery.id,
            );
        }
    }

    fn is_le(&self, a: &Entry, b: &Entry) -> (r: bool) {
        match self.key {
            SortKey::Id => a.battery.id <= b.battery.id,
            SortKey::CellType => dated_before(
                a.battery.cell_type.as_str(),
                a.battery.id,
                b.battery.cell_type.as_str(),
                b.battery.id,
            ),
            SortKey::Location => dated_before(
                a.battery.location.as_str(),
                a.battery.id,
                b.battery.location.as_str(),
                b.battery.id,
            ),
            SortKey::Health => match (a.health, b.health) {
                (Some(x), Some(y)) => x <= y,
                (Some(_), None) => true,
                (None, Some(_)) => false,
                (None, None) => a.battery.id <= b.battery.id,
            },
            SortKey::Resistance => match (a.resistance, b.resistance) {
                (Some(x), Some(y)) => y <= x,
                (Some(_), None) => true,
                (None, Some(_)) => false,
                (None, None) => a.battery.id <= b.battery.id,
            },
        }
    }
}

/// The whole list, on all of its pages.
pub open spec fn whole_list(db: Db, env: Dict<String>, f: FiltersView) -> Seq<Entry> {
    let flagged = f.show == "flagged"@;
    let all = entries(
        db,
        env,
        f.type_filter,
        f.location_filter,
        f.search,
        if flagged {
            "active"@
        } else {
            f.show
        },
    );
    let picked = if flagged {
        kept(Flagged { health_limit: health_limit_of(db, env) }, all)
    } else {
        all
    };
    sorted(ListOrder { key: sort_key(f.sort) }, picked)
}

fn make_list(db: &Db, Ghost(env): Ghost<Dict<String>>, terms: &Terms, f: &Filters) -> (r: Vec<Entry>)
    requires
        terms.fit(*db, env),
    ensures
        r@ == whole_list(*db, env, f@),
{
    let flagged = same(f.show.as_str(), "flagged");
    let all = collect(
        db,
        Ghost(env),
        terms,
        f.type_filter.as_str(),
        f.location_filter.as_str(),
        f.search.as_str(),
        if flagged {
            "active"
        } else {
            f.show.as_str()
        },
    );
    let picked = if flagged {
        select(&Flagged { health_limit: terms.health_limit }, &all)
    } else {
        all
    };
    sort(&ListOrder { key: key_of(f.sort.as_str()) }, picked)
}

// ── Counting ────────────────────────────────────────────────────────────

/// A count as the page shows it.
pub open spec fn capped(n: int) -> int {
    if n > i64::MAX {
        i64::MAX as int
    } else {
        n
    }
}

fn count_of(n: usize) -> (r: i64)
    ensures
        r == capped(n as int),
        r >= 0,
{
    if n as u128 > i64::MAX as u128 {
        i64::MAX
    } else {
        n as i64
    }
}

/// One more of a type, the types in alphabetical order.
pub open spec fn counted(t: Seq<(Seq<char>, int)>, name: Seq<char>) -> Seq<(Seq<char>, int)>
    decreases t.len(),
{
    if t.len() == 0 {
        seq![(name, 1int)]
    } else if t[0].0 == name {
        t.update(0, (name, t[0].1 + 1))
    } else if text_lt(name, t[0].0) {
        seq![(name, 1int)] + t
    } else {
        seq![t[0]] + counted(t.skip(1), name)
    }
}

/// How many batteries there are of each type.
pub open spec fn tally(list: Seq<Entry>) -> Seq<(Seq<char>, int)>
    decreases list.len(),
{
    if list.len() == 0 {
        Seq::empty()
    } else {
        counted(tally(list.drop_last()), list.last().battery.cell_type@)
    }
}

pub open spec fn count_views(t: Seq<(String, usize)>) -> Seq<(Seq<char>, int)> {
    t.map_values(|p: (String, usize)| (p.0@, p.1 as int))
}

/// No count is beyond the length of the list.
proof fn lemma_counted_bound(t: Seq<(Seq<char>, int)>, name: Seq<char>, n: int)
    requires
        0 <= n,
        forall|i: int| 0 <= i < t.len() ==> (#[trigger] t[i]).1 <= n,
    ensures
        forall|i: int| 0 <= i < counted(t, name).len() ==> (#[trigger] counted(t, name)[i]).1 <= n
            + 1,
    decreases t.len(),
{
    let c = counted(t, name);
    if t.len() > 0 && t[0].0 != name && !text_lt(name, t[0].0) {
        assert forall|i: int| 0 <= i < t.skip(1).len() implies (#[trigger] t.skip(1)[i]).1 <= n by {
            assert(t[i + 1].1 <= n);
        }
        lemma_counted_bound(t.skip(1), name, n);
        assert forall|i: int| 0 <= i < c.len() implies (#[trigger] c[i]).1 <= n + 1 by {
            if i > 0 {
                assert(c[i] == counted(t.skip(1), name)[i - 1]);
            } else {
                assert(c[0] == t[0]);
            }
        }
    } else {
        assert forall|i: int| 0 <= i < c.len() implies (#[trigger] c[i]).1 <= n + 1 by {
            if t.len() > 0 && t[0].0 == name {
                if i > 0 {
                    assert(c[i] == t[i]);
                }
            } else if t.len() > 0 && i > 0 {
                assert(c[i] == t[i - 1]);
            }
        }
    }
}

/// Counting past types that come before.
proof fn lemma_counted_past(t: Seq<(Seq<char>, int)>, name: Seq<char>, k: int)
    requires
        0 <= k <= t.len(),
        forall|i: int|
            0 <= i < k ==> (#[trigger] t[i]).0 != name && !text_lt(name, t[i].0),
    ensures
        counted(t, name) == t.take(k) + counted(t.skip(k), name),
    decreases k,
{
    if k == 0 {
        assert(t.skip(0) =~= t);
        assert(t.take(0) + counted(t, name) =~= counted(t, name));
    } else {
        let rest = t.skip(1);
        assert forall|i: int| 0 <= i < k - 1 implies (#[trigger] rest[i]).0 != name && !text_lt(
            name,
            rest[i].0,
        ) by {
            assert(t[i + 1].0 != name);
        }
        lemma_counted_past(rest, name, k - 1);
        assert(t[0].0 != name && !text_lt(name, t[0].0));
        assert(rest.skip(k - 1) =~= t.skip(k));
        assert(t.take(k) + counted(t.skip(k), name) =~= seq![t[0]] + (rest.take(k - 1) + counted(
            t.skip(k),
            name,
        )));
    }
}

fn make_tally(list: &Vec<Entry>) -> (r: Vec<(String, usize)>)
    ensures
        count_views(r@) == tally(list@),
{
    let mut out: Vec<(String, usize)> = Vec::new();
    let mut i: usize = 0;
    assert(count_views(out@) =~= tally(list@.take(0)));
    while i < list.len()
        invariant
            i <= list@.len(),
            count_views(out@) == tally(list@.take(i as int)),
            forall|j: int| 0 <= j < out@.len() ==> (#[trigger] count_views(out@)[j]).1 <= i,
        decreases list@.len() - i,
    {
        let ghost t = count_views(out@);
        let ghost name = list@[i as int].battery.cell_type@;
        assert(list@.take(i + 1).drop_last() =~= list@.take(i as int));
        let mut k: usize = 0;
        while k < out.len() && !same(
            out[k].0.as_str(),
            list[i].battery.cell_type.as_str(),
        ) && !before(list[i].battery.cell_type.as_str(), out[k].0.as_str())
            invariant
                i < list@.len(),
                k <= out@.len(),
                t == count_views(out@),
                name == list@[i as int].battery.cell_type@,
                forall|j: int|
                    0 <= j < k ==> (#[trigger] t[j]).0 != name && !text_lt(name, t[j].0),
            decreases out@.len() - k,
        {
            assert(t[k as int].0 == out@[k as int].0@);
            k = k + 1;
        }
        proof {
            lemma_counted_past(t, name, k as int);
            lemma_counted_bound(t, name, i as int);
        }
        if k < out.len() && same(out[k].0.as_str(), list[i].battery.cell_type.as_str()) {
            assert(t[k as int] == (out@[k as int].0@, out@[k as int].1 as int));
            let n: usize = out[k].1 + 1;
            out.set(k, (list[i].battery.cell_type.clone(), n));
            assert(t.skip(k as int)[0] == t[k as int]);
            assert(count_views(out@) =~= counted(t, name));
        } else {
            out.insert(k, (list[i].battery.cell_type.clone(), 1));
            proof {
                if k < t.len() {
                    assert(t.skip(k as int)[0] == t[k as int]);
                    assert(t[k as int].0 == out@[k + 1].0@);
                }
                assert(count_views(out@) =~= counted(t, name));
            }
        }
        i = i + 1;
    }
    assert(list@.take(i as int) =~= list@);
    out
}

/// The counts of the types as a text.
pub open spec fn tally_text(t: Seq<(Seq<char>, int)>) -> Seq<char> {
    joined(t.map_values(|p: (Seq<char>, int)| int_text(p.1) + "x "@ + p.0), ", "@)
}

fn tally_string(t: &Vec<(String, usize)>) -> (r: String)
    ensures
        r@ == tally_text(count_views(t@)),
{
    let ghost all = count_views(t@).map_values(|p: (Seq<char>, int)| int_text(p.1) + "x "@ + p.0);
    let mut parts: Vec<String> = Vec::new();
    let mut i: usize = 0;
    assert(views(parts@) =~= all.take(0));
    while i < t.len()
        invariant
            i <= t@.len(),
            all == count_views(t@).map_values(
                |p: (Seq<char>, int)| int_text(p.1) + "x "@ + p.0,
            ),
            views(parts@) == all.take(i as int),
        decreases t@.len() - i,
    {
        let ghost done = parts@;
        let mut m = count_text(t[i].1);
        m.append("x ");
        m.append(t[i].0.as_str());
        parts.push(m);
        proof {
            lemma_views_push(done, m);
            assert(all.take(i + 1) =~= all.take(i as int).push(all[i as int]));
        }
        i = i + 1;
    }
    assert(all.take(i as int) =~= all);
    join(&parts, ", ")
}

fn count_text(n: usize) -> (r: String)
    ensures
        r@ == int_text(n as int),
{
    let mut m = String::new();
    push_int(&mut m, n as i128);
    assert(m@ =~= int_text(n as int));
    m
}

// ── Heading ─────────────────────────────────────────────────────────────

pub open spec fn flagged_count(list: Seq<Entry>, health_limit: i64) -> nat {
    kept(Flagged { health_limit }, list).len()
}

/// How one type stands across every status.
pub open spec fn type_heading(active: nat, flagged: nat, deleted: nat) -> Seq<char> {
    let first = seq![int_text(active as int) + "x active"@];
    let second = if flagged > 0 {
        seq![int_text(flagged as int) + "x flagged"@]
    } else {
        Seq::empty()
    };
    let third = if deleted > 0 {
        seq![int_text(deleted as int) + "x deleted"@]
    } else {
        Seq::empty()
    };
    joined(first + second + third, ", "@)
}

fn heading_of_type(active: usize, flagged: usize, deleted: usize) -> (r: String)
    ensures
        r@ == type_heading(active as nat, flagged as nat, deleted as nat),
{
    let mut parts: Vec<String> = Vec::new();
    let mut m = count_text(active);
    m.append("x active");
    parts.push(m);
    let ghost first = seq![int_text(active as int) + "x active"@];
    assert(views(parts@) =~= first);
    let ghost mut second = Seq::<Seq<char>>::empty();
    if flagged > 0 {
        let mut m = count_text(flagged);
        m.append("x flagged");
        parts.push(m);
        proof {
            second = seq![int_text(flagged as int) + "x flagged"@];
        }
    }
    assert(views(parts@) =~= first + second);
    let ghost mut third = Seq::<Seq<char>>::empty();
    if deleted > 0 {
        let mut m = count_text(deleted);
        m.append("x deleted");
        parts.push(m);
        proof {
            third = seq![int_text(deleted as int) + "x deleted"@];
        }
    }
    assert(views(parts@) =~= first + second + third);
    join(&parts, ", ")
}

pub open spec fn plural(n: int) -> Seq<char> {
    if n == 1 {
        "y"@
    } else {
        "ies"@
    }
}

/// The line above the list.
pub open spec fn heading_of(db: Db, env: Dict<String>, f: FiltersView) -> Seq<char> {
    let list = whole_list(db, env, f);
    let total = capped(list.len() as int);
    if f.type_filter.len() > 0 {
        let active = entries(db, env, f.type_filter, f.location_filter, f.search, "active"@);
        let deleted = entries(db, env, f.type_filter, f.location_filter, f.search, "deleted"@);
        type_heading(
            active.len(),
            flagged_count(active, health_limit_of(db, env)),
            deleted.len(),
        )
    } else if f.show == "deleted"@ {
        int_text(total) + " deleted batter"@ + plural(total) + "."@
    } else if f.show == "flagged"@ {
        int_text(total) + " flagged batter"@ + plural(total) + "."@
    } else if f.show == "all"@ {
        int_text(total) + " batter"@ + plural(total) + " total."@
    } else if list.len() == 0 {
        "No batteries."@
    } else {
        tally_text(tally(list))
    }
}

fn ending(n: i64) -> (r: &'static str)
    ensures
        r@ == plural(n as int),
{
    if n == 1 {
        "y"
    } else {
        "ies"
    }
}

fn make_heading(
    db: &Db,
    Ghost(env): Ghost<Dict<String>>,
    terms: &Terms,
    f: &Filters,
    list: &Vec<Entry>,
) -> (r: String)
    requires
        terms.fit(*db, env),
        list@ == whole_list(*db, env, f@),
    ensures
        r@ == heading_of(*db, env, f@),
{
    let total = count_of(list.len());
    if !f.type_filter.as_str().is_empty() {
        let active = collect(
            db,
            Ghost(env),
            terms,
            f.type_filter.as_str(),
            f.location_filter.as_str(),
            f.search.as_str(),
            "active",
        );
        let flagged = select(&Flagged { health_limit: terms.health_limit }, &active);
        let deleted = collect(
            db,
            Ghost(env),
            terms,
            f.type_filter.as_str(),
            f.location_filter.as_str(),
            f.search.as_str(),
            "deleted",
        );
        return heading_of_type(active.len(), flagged.len(), deleted.len());
    }
    let show = f.show.as_str();
    if same(show, "deleted") {
        let mut m = int_string(total);
        m.append(" deleted batter");
        m.append(ending(total));
        m.append(".");
        return m;
    }
    if same(show, "flagged") {
        let mut m = int_string(total);
        m.append(" flagged batter");
        m.append(ending(total));
        m.append(".");
        return m;
    }
    if same(show, "all") {
        let mut m = int_string(total);
        m.append(" batter");
        m.append(ending(total));
        m.append(" total.");
        return m;
    }
    if list.len() == 0 {
        return "No batteries.".to_string();
    }
    tally_string(&make_tally(list))
}

// ── Scopes ──────────────────────────────────────────────────────────────

/// The scopes one can choose between: none where nothing is deleted and nothing
/// is flagged, as then they all show the same.
pub open spec fn scopes_of(flagged: nat, deleted: nat) -> Seq<(Seq<char>, Seq<char>)> {
    let variety = flagged > 0 || deleted > 0;
    let active = if variety {
        seq![("active"@, "Active"@)]
    } else {
        Seq::empty()
    };
    let marked = if flagged > 0 {
        seq![("flagged"@, "Flagged"@)]
    } else {
        Seq::empty()
    };
    let gone = if deleted > 0 {
        seq![("deleted"@, "Deleted"@)]
    } else {
        Seq::empty()
    };
    let all = if variety {
        seq![("all"@, "All"@)]
    } else {
        Seq::empty()
    };
    active + marked + gone + all
}

fn make_scopes(flagged: usize, deleted: usize) -> (r: Vec<(String, String)>)
    ensures
        pair_views(r@) == scopes_of(flagged as nat, deleted as nat),
{
    let mut out: Vec<(String, String)> = Vec::new();
    if flagged > 0 || deleted > 0 {
        out.push(("active".to_string(), "Active".to_string()));
    }
    if flagged > 0 {
        out.push(("flagged".to_string(), "Flagged".to_string()));
    }
    if deleted > 0 {
        out.push(("deleted".to_string(), "Deleted".to_string()));
    }
    if flagged > 0 || deleted > 0 {
        out.push(("all".to_string(), "All".to_string()));
    }
    assert(pair_views(out@) =~= scopes_of(flagged as nat, deleted as nat));
    out
}

// ── Paging ──────────────────────────────────────────────────────────────

/// How many pages a list takes.
pub open spec fn pages_of(total: int, size: int) -> int {
    if total <= 0 {
        1
    } else {
        (total - 1) / size + 1
    }
}

/// The page that is shown when one is asked for.
pub open spec fn page_shown(asked: int, total: int, size: int) -> int {
    if asked > pages_of(total, size) {
        pages_of(total, size)
    } else {
        asked
    }
}

/// The first and the last place on a page.
pub open spec fn span(page: int, total: int, size: int) -> (int, int) {
    let from = (page - 1) * size;
    let to = if from + size > total {
        total
    } else {
        from + size
    };
    (from, to)
}

/// Every page that is shown begins within the list.
proof fn lemma_span(asked: int, total: int, size: int)
    requires
        asked >= 1,
        total >= 0,
        size >= 1,
    ensures
        1 <= page_shown(asked, total, size) <= pages_of(total, size),
        1 <= pages_of(total, size),
        total > 0 ==> pages_of(total, size) <= total,
        0 <= span(page_shown(asked, total, size), total, size).0 <= total,
        span(page_shown(asked, total, size), total, size).0 <= span(
            page_shown(asked, total, size),
            total,
            size,
        ).1 <= total,
        total > 0 ==> span(page_shown(asked, total, size), total, size).0 < total,
{
    let pages = pages_of(total, size);
    let page = page_shown(asked, total, size);
    if total > 0 {
        let q = (total - 1) / size;
        vstd::arithmetic::div_mod::lemma_fundamental_div_mod(total - 1, size);
        vstd::arithmetic::div_mod::lemma_div_pos_is_pos(total - 1, size);
        assert(q * size <= total - 1) by (nonlinear_arith)
            requires
                total - 1 == size * q + (total - 1) % size,
                (total - 1) % size >= 0,
        ;
        assert(q <= total - 1) by (nonlinear_arith)
            requires
                q * size <= total - 1,
                size >= 1,
                q >= 0,
        ;
        assert((page - 1) * size <= q * size) by (nonlinear_arith)
            requires
                page - 1 <= q,
                size >= 1,
        ;
    } else {
        assert(page == 1);
    }
    assert((page - 1) * size >= 0) by (nonlinear_arith)
        requires
            page >= 1,
            size >= 1,
    ;
}

/// The pages cover the list: every place on it is on exactly one page.
pub proof fn every_place_is_on_one_page(total: int, size: int, place: int, page: int)
    requires
        size >= 1,
        0 <= place < total,
        1 <= page <= pages_of(total, size),
    ensures
        span(page, total, size).0 <= place < span(page, total, size).1 <==> page == place / size
            + 1,
        1 <= place / size + 1 <= pages_of(total, size),
{
    vstd::arithmetic::div_mod::lemma_fundamental_div_mod(place, size);
    vstd::arithmetic::div_mod::lemma_div_is_ordered(place, total - 1, size);
    vstd::arithmetic::div_mod::lemma_div_pos_is_pos(place, size);
    let q = place / size;
    let m = place % size;
    assert(place == size * q + m);
    assert((page - 1) * size <= place < (page - 1) * size + size <==> page - 1 == q)
        by (nonlinear_arith)
        requires
            place == size * q + m,
            0 <= m < size,
            size >= 1,
    ;
}

// ── The page ────────────────────────────────────────────────────────────

#[derive(Debug)]
pub struct ListPage {
    pub heading: String,
    pub scopes: Vec<(String, String)>,
    pub show: String,
    pub filter_query: String,
    pub view: String,
    pub list_url: String,
    pub type_filter: String,
    pub location_filter: String,
    pub search: String,
    pub sort: String,
    pub types: Vec<String>,
    pub locations: Vec<String>,
    pub brands: Vec<String>,
    pub batteries: Vec<BatteryRow>,
    pub total: i64,
    pub grid_columns: i64,
    pub pages: i64,
    pub page: i64,
    pub first_row: i64,
    pub last_row: i64,
    pub page_query: String,
    pub page_numbers: Vec<i64>,
}

/// The filters as they stand in a link.
pub open spec fn filter_pairs(f: FiltersView) -> Seq<(Seq<char>, Seq<char>)> {
    seq![("type"@, f.type_filter), ("location"@, f.location_filter), ("q"@, f.search)]
}

/// The filters, the scope and the order as they stand in a link; the usual
/// order is left out.
pub open spec fn page_pairs(f: FiltersView) -> Seq<(Seq<char>, Seq<char>)> {
    seq![
        ("show"@, f.show),
        ("type"@, f.type_filter),
        ("location"@, f.location_filter),
        ("q"@, f.search),
        (
            "sort"@,
            if f.sort == "id"@ {
                ""@
            } else {
                f.sort
            },
        ),
    ]
}

/// The pairs of a link to the very page; the first page is left out.
pub open spec fn url_pairs(f: FiltersView, page: int) -> Seq<(Seq<char>, Seq<char>)> {
    page_pairs(f).push(
        (
            "page"@,
            if page == 1 {
                ""@
            } else {
                int_text(page)
            },
        ),
    )
}

/// A query that more can follow.
pub open spec fn query_start(pairs: Seq<(Seq<char>, Seq<char>)>) -> Seq<char> {
    if filled(pairs).len() == 0 {
        Seq::empty()
    } else {
        query_of(pairs) + "&"@
    }
}

/// A link to the list.
pub open spec fn url_of(pairs: Seq<(Seq<char>, Seq<char>)>) -> Seq<char> {
    if filled(pairs).len() == 0 {
        "/"@
    } else {
        "/?"@ + query_of(pairs)
    }
}

/// A query with an ampersand behind it, where there is one.
pub fn open_query(query: &str) -> (r: String)
    ensures
        r@ == (if query@.len() == 0 {
            Seq::empty()
        } else {
            query@ + "&"@
        }),
{
    let mut q = query.to_string();
    if q.as_str().is_empty() {
        assert(q@ =~= Seq::<char>::empty());
        return q;
    }
    q.append("&");
    q
}

fn start_query(pairs: &Vec<(&str, &str)>) -> (r: String)
    ensures
        r@ == query_start(str_pair_views(pairs@)),
{
    open_query(query_string(pairs).as_str())
}

/// A link to the list with a query, where there is one.
pub fn list_url(query: &str) -> (r: String)
    ensures
        r@ == (if query@.len() == 0 {
            "/"@
        } else {
            "/?"@ + query@
        }),
{
    if query.is_empty() {
        return "/".to_string();
    }
    let mut m = "/?".to_string();
    m.append(query);
    m
}

fn make_url(pairs: &Vec<(&str, &str)>) -> (r: String)
    ensures
        r@ == url_of(str_pair_views(pairs@)),
{
    list_url(query_string(pairs).as_str())
}

/// The values of a column, in alphabetical order.
pub open spec fn column_values(db: Db, c: Column) -> Seq<String> {
    sorted(Alphabetical, values_in(db.batteries@, c, false))
}

pub open spec fn highest_number(db: Db) -> int {
    (match next_number(db.batteries@) {
        Some(n) => n,
        None => 1,
    }) - 1
}

pub fn highest_id(db: &Db) -> (r: i64)
    ensures
        r == highest_number(*db),
{
    match db.next_id() {
        Ok(n) => n - 1,
        Err(_) => 0,
    }
}

pub open spec fn page_size_of(db: Db, env: Dict<String>) -> int {
    let n = value_of(db@.settings, env, "page_size"@).number();
    if n < 1 {
        1
    } else {
        n as int
    }
}

impl ListPage {
    /// The page shows the batteries that pass the filters: the page of them
    /// that was asked for, or the last one where there are not so many.
    pub open spec fn shows(
        &self,
        db: Db,
        env: Dict<String>,
        f: FiltersView,
        view: Seq<char>,
        asked: int,
    ) -> bool {
        let list = whole_list(db, env, f);
        let total = capped(list.len() as int);
        let size = page_size_of(db, env);
        let page = page_shown(asked, total, size);
        let (from, to) = span(page, total, size);
        let limit = health_limit_of(db, env);
        &&& self.heading@ == heading_of(db, env, f)
        &&& pair_views(self.scopes@) == scopes_for(db, env, f)
        &&& self.show@ == f.show
        &&& self.filter_query@ == query_start(filter_pairs(f))
        &&& self.view@ == view
        &&& self.list_url@ == url_of(url_pairs(f, page))
        &&& self.type_filter@ == f.type_filter
        &&& self.location_filter@ == f.location_filter
        &&& self.search@ == f.search
        &&& self.sort@ == f.sort
        &&& self.types@ == column_values(db, Column::CellType)
        &&& self.locations@ == column_values(db, Column::Location)
        &&& self.brands@ == column_values(db, Column::Brand)
        &&& self.batteries@.len() == to - from
        &&& forall|i: int|
            0 <= i < to - from ==> (#[trigger] self.batteries@[i]).shows(
                list[from + i].battery,
                readings(db.measurements@, list[from + i].battery.id),
                limit_set(list[from + i].battery.cell_type@, db@.settings, env),
                Some(limit),
                highest_number(db),
            )
        &&& self.total == total
        &&& self.grid_columns == value_of(db@.settings, env, "grid_columns"@).number()
        &&& self.pages == pages_of(total, size)
        &&& self.page == page
        &&& self.first_row == (if total == 0 {
            0
        } else {
            from + 1
        })
        &&& self.last_row == to
        &&& self.page_query@ == query_start(page_pairs(f))
        &&& self.page_numbers@ == paging(page, pages_of(total, size))
    }
}

/// The values of a column; every column that is asked for is there.
fn values(db: &Db, column: &str, Ghost(c): Ghost<Column>) -> (r: Vec<String>)
    requires
        crate::reads::column_named(column@) == Some(c),
    ensures
        r@ == column_values(*db, c),
{
    match db.distinct(column) {
        Ok(v) => v,
        Err(_) => Vec::new(),
    }
}

pub fn type_values(db: &Db) -> (r: Vec<String>)
    ensures
        r@ == column_values(*db, Column::CellType),
{
    proof {
        crate::reads::lemma_columns();
    }
    values(db, "type", Ghost(Column::CellType))
}

pub fn location_values(db: &Db) -> (r: Vec<String>)
    ensures
        r@ == column_values(*db, Column::Location),
{
    proof {
        crate::reads::lemma_columns();
    }
    values(db, "location", Ghost(Column::Location))
}

pub fn brand_values(db: &Db) -> (r: Vec<String>)
    ensures
        r@ == column_values(*db, Column::Brand),
{
    proof {
        crate::reads::lemma_columns();
    }
    values(db, "brand", Ghost(Column::Brand))
}

fn page_rows(
    db: &Db,
    Ghost(env): Ghost<Dict<String>>,
    terms: &Terms,
    list: &Vec<Entry>,
    from: usize,
    to: usize,
) -> (r: Vec<BatteryRow>)
    requires
        terms.fit(*db, env),
        from <= to <= list@.len(),
    ensures
        r@.len() == to - from,
        forall|i: int|
            0 <= i < to - from ==> (#[trigger] r@[i]).shows(
                list@[from + i].battery,
                readings(db.measurements@, list@[from + i].battery.id),
                limit_set(list@[from + i].battery.cell_type@, db@.settings, env),
                Some(terms.health_limit),
                highest_number(*db),
            ),
{
    let highest = highest_id(db);
    let mut out: Vec<BatteryRow> = Vec::new();
    let mut i: usize = from;
    while i < to
        invariant
            from <= i <= to <= list@.len(),
            terms.fit(*db, env),
            highest == highest_number(*db),
            out@.len() == i - from,
            forall|j: int|
                0 <= j < i - from ==> (#[trigger] out@[j]).shows(
                    list@[from + j].battery,
                    readings(db.measurements@, list@[from + j].battery.id),
                    limit_set(list@[from + j].battery.cell_type@, db@.settings, env),
                    Some(terms.health_limit),
                    highest_number(*db),
                ),
        decreases to - i,
    {
        let b = &list[i].battery;
        proof {
            lemma_limit_set(b.cell_type@, terms.limits, db@.settings, env);
        }
        out.push(
            battery_row(
                db,
                b,
                &terms.limits,
                Some(terms.health_limit),
                &terms.names,
                highest,
            ),
        );
        i = i + 1;
    }
    out
}

/// Where a page lies in the list.
struct Place {
    pages: i64,
    page: i64,
    from: usize,
    to: usize,
}

fn place(total: i64, size: i64, asked: i64, len: usize) -> (r: Place)
    requires
        asked >= 1,
        total >= 0,
        size >= 1,
        total <= len,
    ensures
        r.pages == pages_of(total as int, size as int),
        r.page == page_shown(asked as int, total as int, size as int),
        (r.from as int, r.to as int) == span(r.page as int, total as int, size as int),
        r.from <= r.to <= total,
        total > 0 ==> r.from < total,
{
    proof {
        lemma_span(asked as int, total as int, size as int);
    }
    let pages: i64 = if total == 0 {
        1
    } else {
        (total - 1) / size + 1
    };
    let page: i64 = if asked > pages {
        pages
    } else {
        asked
    };
    let start: i128 = page as i128 - 1;
    let from: i128 = start * (size as i128);
    let to: i128 = if from + size as i128 > total as i128 {
        total as i128
    } else {
        from + size as i128
    };
    Place { pages, page, from: from as usize, to: to as usize }
}

fn filter_start(f: &Filters) -> (r: String)
    ensures
        r@ == query_start(filter_pairs(f@)),
{
    let pairs: Vec<(&str, &str)> = vec![
        ("type", f.type_filter.as_str()),
        ("location", f.location_filter.as_str()),
        ("q", f.search.as_str()),
    ];
    assert(str_pair_views(pairs@) =~= filter_pairs(f@));
    start_query(&pairs)
}

fn page_start(f: &Filters) -> (r: String)
    ensures
        r@ == query_start(page_pairs(f@)),
{
    let sort = if same(f.sort.as_str(), "id") {
        ""
    } else {
        f.sort.as_str()
    };
    let pairs: Vec<(&str, &str)> = vec![
        ("show", f.show.as_str()),
        ("type", f.type_filter.as_str()),
        ("location", f.location_filter.as_str()),
        ("q", f.search.as_str()),
        ("sort", sort),
    ];
    assert(str_pair_views(pairs@) =~= page_pairs(f@));
    start_query(&pairs)
}

fn page_url(f: &Filters, page: i64) -> (r: String)
    ensures
        r@ == url_of(url_pairs(f@, page as int)),
{
    let sort = if same(f.sort.as_str(), "id") {
        ""
    } else {
        f.sort.as_str()
    };
    let number = int_string(page);
    let at = if page == 1 {
        ""
    } else {
        number.as_str()
    };
    let pairs: Vec<(&str, &str)> = vec![
        ("show", f.show.as_str()),
        ("type", f.type_filter.as_str()),
        ("location", f.location_filter.as_str()),
        ("q", f.search.as_str()),
        ("sort", sort),
        ("page", at),
    ];
    assert(str_pair_views(pairs@) =~= url_pairs(f@, page as int));
    make_url(&pairs)
}

/// The scopes one can choose between, given the list that is shown.
pub open spec fn scopes_for(db: Db, env: Dict<String>, f: FiltersView) -> Seq<
    (Seq<char>, Seq<char>),
> {
    let active = entries(db, env, ""@, ""@, ""@, "active"@);
    let deleted = entries(db, env, ""@, ""@, ""@, "deleted"@).len();
    let flagged = if f.show == "flagged"@ {
        whole_list(db, env, f).len()
    } else {
        flagged_count(active, health_limit_of(db, env))
    };
    scopes_of(flagged, deleted)
}

fn list_scopes(
    db: &Db,
    Ghost(env): Ghost<Dict<String>>,
    terms: &Terms,
    f: &Filters,
    list: &Vec<Entry>,
) -> (r: Vec<(String, String)>)
    requires
        terms.fit(*db, env),
        list@ == whole_list(*db, env, f@),
    ensures
        pair_views(r@) == scopes_for(*db, env, f@),
{
    let flagged = if same(f.show.as_str(), "flagged") {
        list.len()
    } else {
        let active = collect(db, Ghost(env), terms, "", "", "", "active");
        select(&Flagged { health_limit: terms.health_limit }, &active).len()
    };
    let deleted = collect(db, Ghost(env), terms, "", "", "", "deleted").len();
    make_scopes(flagged, deleted)
}

fn page_size(db: &Db, env: &Dict<String>) -> (r: i64)
    ensures
        r == page_size_of(*db, *env),
        r >= 1,
{
    let n = get(db, env, "page_size").as_i64();
    if n < 1 {
        1
    } else {
        n
    }
}

/// The list, one page of it.
pub fn list_page(db: &Db, env: &Dict<String>, f: &Filters, view: &str, asked: i64) -> (r: ListPage)
    requires
        asked >= 1,
    ensures
        r.shows(*db, *env, f@, view@, asked as int),
{
    let terms = terms(db, env);
    let list = make_list(db, Ghost(*env), &terms, f);
    let total = count_of(list.len());
    let at = place(total, page_size(db, env), asked, list.len());
    let batteries = page_rows(db, Ghost(*env), &terms, &list, at.from, at.to);
    ListPage {
        heading: make_heading(db, Ghost(*env), &terms, f, &list),
        scopes: list_scopes(db, Ghost(*env), &terms, f, &list),
        show: f.show.clone(),
        filter_query: filter_start(f),
        view: view.to_string(),
        list_url: page_url(f, at.page),
        type_filter: f.type_filter.clone(),
        location_filter: f.location_filter.clone(),
        search: f.search.clone(),
        sort: f.sort.clone(),
        types: type_values(db),
        locations: location_values(db),
        brands: brand_values(db),
        batteries,
        total,
        grid_columns: get(db, env, "grid_columns").as_i64(),
        pages: at.pages,
        page: at.page,
        first_row: if total == 0 {
            0
        } else {
            at.from as i64 + 1
        },
        last_row: at.to as i64,
        page_query: page_start(f),
        page_numbers: page_numbers(at.page, at.pages),
    }
}

/// The page that a query asks for, counted from one.
pub open spec fn asked_page(q: Dict<String>) -> int {
    match q.spec_get("page"@) {
        Some(s) => match parsed_int(s@) {
            Some(n) if n >= 1 => n as int,
            _ => 1,
        },
        None => 1,
    }
}

/// Whether the list is a table or a grid: as the query says, or else as it is
/// set.
pub open spec fn asked_view(q: Dict<String>, settings: Seq<SettingView>, env: Dict<String>) -> Seq<
    char,
> {
    match q.spec_get("view"@) {
        Some(s) => s@,
        None => value_of(settings, env, "list_view"@).text(),
    }
}

/// The list that a query asks for. What it says of the filters is remembered,
/// and holds for a later query that says nothing of them.
pub fn page_list(db: &mut Db, env: &Dict<String>, q: &Dict<String>, now: &str) -> (r: ListPage)
    ensures
        ({
            let f = chosen(*q, stored(old(db)@.settings, LIST_FILTERS_KEY@));
            &&& final(db)@ == setting_saved(
                old(db)@,
                LIST_FILTERS_KEY@,
                json_object(remembered(f)),
                now@,
            )
            &&& r.shows(
                *final(db),
                *env,
                f,
                asked_view(*q, final(db)@.settings, *env),
                asked_page(*q),
            )
            &&& old(db)@.wf() ==> forall|later: Dict<String>|
                (forall|k: Seq<char>| #[trigger] later.spec_get(k) is None) ==> #[trigger] chosen(
                    later,
                    stored(final(db)@.settings, LIST_FILTERS_KEY@),
                ) == f
        }),
{
    let saved = match db.get_setting(LIST_FILTERS_KEY) {
        Ok(s) => s,
        Err(_) => None,
    };
    let f = choose_filters(q, &saved);
    let text = filters_text(&f);
    let _ = db.set_setting(LIST_FILTERS_KEY, text.as_str(), now);
    proof {
        if old(db)@.wf() {
            let other = LIST_FILTERS_KEY@.push(' ');
            assert(other.len() != LIST_FILTERS_KEY@.len());
            crate::laws::a_saved_setting_reads_back(
                old(db)@,
                LIST_FILTERS_KEY@,
                text@,
                now@,
                other,
            );
        }
    }
    let asked: i64 = match q.get("page") {
        Some(s) => match parse_i64(s.as_str()) {
            Some(n) => if n >= 1 {
                n
            } else {
                1
            },
            None => 1,
        },
        None => 1,
    };
    let view = match q.get("view") {
        Some(s) => s.clone(),
        None => get(db, env, "list_view").as_text(),
    };
    list_page(db, env, &f, view.as_str(), asked)
}

} // verus!
