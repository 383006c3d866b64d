//! What is done at which address.

use vstd::prelude::*;
use crate::adding::Reply;
use crate::actions::{
    battery_deleted, battery_path, battery_purged, battery_reset, battery_restored, details_edited,
    location_chosen, location_entry_deleted, match_brought_back, match_removed, measurement_deleted,
    reading_submitted,
};
use crate::db::{lemma_at, lemma_has, Db};
use crate::dict::Dict;
use crate::pages::{CommandResult, MissingPage, Page};
use crate::router::{action_of, route_of, segments_of, shown, solid, submitted, Route};
use crate::text::{
    int_text, int_text_reads_back, lemma_split_sides, lemma_split_whole, parsed_int, split_on,
};
use crate::text_laws::a_number_is_made_of_digits;

verus! {

/// The parts of an address are those between its slashes.
pub proof fn an_address_is_made_of_its_parts(path: Seq<char>)
    ensures
        segments_of(path) == split_on(path, '/').filter(|p: Seq<char>| p.len() > 0),
{
    lemma_solid(split_on(path, '/'));
}

proof fn lemma_solid(parts: Seq<Seq<char>>)
    ensures
        solid(parts) == parts.filter(|p: Seq<char>| p.len() > 0),
    decreases parts.len(),
{
    reveal(Seq::filter);
    if parts.len() > 0 {
        lemma_solid(parts.drop_last());
    }
}

/// A form at the address of a battery does to that battery what the last part of
/// the address says.
pub proof fn a_form_does_what_its_address_says(
    before: Db,
    after: Db,
    env: Dict<String>,
    id: Seq<char>,
    word: Seq<char>,
    fields: Dict<String>,
    now: Seq<char>,
    today: Seq<char>,
    r: Reply,
)
    requires
        submitted(before, after, env, action_of(seq!["b"@, id, word]), fields, now, today, r),
    ensures
        word == "delete"@ ==> (r matches Reply::Done(c) && battery_deleted(
            before,
            after,
            id,
            fields,
            now,
            c,
        )),
        word == "restore"@ ==> (r matches Reply::Done(c) && battery_restored(
            before,
            after,
            id,
            fields,
            now,
            c,
        )),
        word == "purge"@ ==> (r matches Reply::Done(c) && battery_purged(
            before,
            after,
            id,
            fields,
            c,
        )),
        word == "reset"@ ==> (r matches Reply::Done(c) && battery_reset(
            before,
            after,
            id,
            fields,
            now,
            c,
        )),
        word == "edit"@ ==> (r matches Reply::Done(c) && details_edited(
            before,
            after,
            id,
            fields,
            now,
            c,
        )),
        word == "location"@ ==> (r matches Reply::Done(c) && location_chosen(
            before,
            after,
            env,
            id,
            fields,
            now,
            c,
        )),
        word == "measure"@ ==> (r matches Reply::Done(c) && reading_submitted(
            before,
            after,
            env,
            id,
            fields,
            now,
            today,
            c,
        )),
        word == "print"@ ==> after == before,
{
    let s = seq!["b"@, id, word];
    assert(s[0] == "b"@ && s[1] == id && s[2] == word);
    reveal_strlit("b");
    reveal_strlit("measurement");
    reveal_strlit("instruments");
    reveal_strlit("match");
    reveal_strlit("history");
    reveal_strlit("delete");
    reveal_strlit("restore");
    reveal_strlit("purge");
    reveal_strlit("reset");
    reveal_strlit("edit");
    reveal_strlit("location");
    reveal_strlit("measure");
    reveal_strlit("print");
    assert("b"@.len() == 1 && "measurement"@.len() == 11 && "instruments"@.len() == 11
        && "match"@.len() == 5 && "history"@.len() == 7);
    assert("delete"@.len() == 6 && "restore"@.len() == 7 && "purge"@.len() == 5 && "reset"@.len()
        == 5 && "edit"@.len() == 4 && "location"@.len() == 8 && "measure"@.len() == 7
        && "print"@.len() == 5);
    assert("restore"@[0] == 'r' && "measure"@[0] == 'm');
    assert("purge"@[1] == 'u' && "print"@[1] == 'r' && "reset"@[0] == 'r');
    assert("purge"@[0] == 'p' && "print"@[0] == 'p');
}

/// A form at the address of a reading, a move or a match deletes that one, or
/// brings the set of the match back.
pub proof fn a_record_is_deleted_at_its_address(
    before: Db,
    after: Db,
    env: Dict<String>,
    kind: Seq<char>,
    id: Seq<char>,
    word: Seq<char>,
    fields: Dict<String>,
    now: Seq<char>,
    today: Seq<char>,
    r: Reply,
)
    requires
        submitted(before, after, env, action_of(seq![kind, id, word]), fields, now, today, r),
    ensures
        kind == "measurement"@ && word == "delete"@ ==> (r matches Reply::Done(c)
            && measurement_deleted(before, after, id, c)),
        kind == "history"@ && word == "delete"@ ==> (r matches Reply::Done(c)
            && location_entry_deleted(before, after, id, c)),
        kind == "match"@ && word == "delete"@ ==> (r matches Reply::Done(c) && match_removed(
            before,
            after,
            id,
            c,
        )),
        kind == "match"@ && word == "return"@ ==> (r matches Reply::Done(c) && match_brought_back(
            before,
            after,
            env,
            id,
            now,
            c,
        )),
{
    let s = seq![kind, id, word];
    assert(s[0] == kind && s[1] == id && s[2] == word);
    reveal_strlit("measurement");
    reveal_strlit("instruments");
    reveal_strlit("match");
    reveal_strlit("history");
    reveal_strlit("delete");
    reveal_strlit("return");
    assert("measurement"@[0] == 'm' && "instruments"@[0] == 'i' && "match"@.len() == 5
        && "history"@.len() == 7 && "measurement"@.len() == 11);
    assert("delete"@[0] == 'd' && "return"@[0] == 'r');
}

/// What no address says leaves everything as it is.
pub proof fn an_unknown_address_does_nothing(
    before: Db,
    after: Db,
    env: Dict<String>,
    parts: Seq<Seq<char>>,
    fields: Dict<String>,
    now: Seq<char>,
    today: Seq<char>,
    r: Reply,
)
    requires
        submitted(before, after, env, action_of(parts), fields, now, today, r),
        parts.len() == 0 || parts.len() > 5,
    ensures
        after == before,
{
}

/// A link shows the page that its address names, and but for the list it changes
/// nothing.
pub proof fn a_link_shows_its_page(
    before: Db,
    after: Db,
    env: Dict<String>,
    path: Seq<char>,
    q: Dict<String>,
    now: Seq<char>,
    today: Seq<char>,
    r: CommandResult,
)
    requires
        shown(before, after, env, path, q, now, today, r),
    ensures
        ({
            let s = segments_of(path);
            &&& s.len() > 0 ==> after == before
            &&& after@.batteries == before@.batteries && after@.measurements == before@.measurements
            &&& s.len() == 0 ==> r is Page && r->page is List
            &&& s == seq!["add"@] ==> r is Page && r->page is Add
            &&& s == seq!["scan"@] ==> r is Page && r->page is Scan
            &&& s == seq!["print"@] ==> r is Page && r->page is Print
            &&& s == seq!["instruments"@] ==> r is Page && r->page is Instruments
            &&& s == seq!["settings"@] ==> r is Page && r->page is Settings
            &&& s == seq!["match"@] ==> r is Page && r->page is Match
            &&& s == seq!["match"@, "log"@] ==> r is Page && r->page is MatchLog
            &&& s == seq!["batch"@, "measure"@] ==> r is Page && r->page is BatchMeasure
            &&& s == seq!["batch"@, "location"@] ==> r is Page && r->page is BatchLocation
            &&& s.len() > 2 ==> r is Page && r->page is Missing
        }),
{
    lemma_route(segments_of(path));
}

#[verifier::spinoff_prover]
proof fn lemma_route(s: Seq<Seq<char>>)
    ensures
        s.len() == 0 <==> route_of(s) == Route::List,
        s == seq!["add"@] ==> route_of(s) == Route::Add,
        s == seq!["scan"@] ==> route_of(s) == Route::Scan,
        s == seq!["print"@] ==> route_of(s) == Route::Print,
        s == seq!["instruments"@] ==> route_of(s) == Route::Instruments,
        s == seq!["settings"@] ==> route_of(s) == Route::Settings,
        s == seq!["match"@] ==> route_of(s) == Route::Match,
        s == seq!["match"@, "log"@] ==> route_of(s) == Route::MatchLog,
        s == seq!["batch"@, "measure"@] ==> route_of(s) == Route::BatchMeasure,
        s == seq!["batch"@, "location"@] ==> route_of(s) == Route::BatchLocation,
        s.len() > 2 ==> route_of(s) == Route::Nowhere,
{
    reveal_strlit("add");
    reveal_strlit("scan");
    reveal_strlit("print");
    reveal_strlit("instruments");
    reveal_strlit("settings");
    reveal_strlit("match");
    reveal_strlit("log");
    reveal_strlit("batch");
    reveal_strlit("measure");
    reveal_strlit("location");
    reveal_strlit("b");
    assert("add"@.len() == 3 && "scan"@.len() == 4 && "print"@.len() == 5 && "instruments"@.len()
        == 11 && "settings"@.len() == 8 && "match"@.len() == 5 && "batch"@.len() == 5);
    assert("print"@[0] == 'p' && "match"@[0] == 'm' && "batch"@[0] == 'b');
    assert("measure"@.len() == 7 && "location"@.len() == 8);
    assert(seq!["add"@].len() == 1 && seq!["add"@][0] == "add"@);
    assert(seq!["scan"@].len() == 1 && seq!["scan"@][0] == "scan"@);
    assert(seq!["print"@].len() == 1 && seq!["print"@][0] == "print"@);
    assert(seq!["instruments"@].len() == 1 && seq!["instruments"@][0] == "instruments"@);
    assert(seq!["settings"@].len() == 1 && seq!["settings"@][0] == "settings"@);
    assert(seq!["match"@].len() == 1 && seq!["match"@][0] == "match"@);
    assert(seq!["match"@, "log"@][0] == "match"@ && seq!["match"@, "log"@][1] == "log"@);
    assert(seq!["batch"@, "measure"@][0] == "batch"@ && seq!["batch"@, "measure"@][1]
        == "measure"@);
    assert(seq!["batch"@, "location"@][0] == "batch"@ && seq!["batch"@, "location"@][1]
        == "location"@);
}

/// The address of a battery shows that battery, or says that there is none.
pub proof fn an_address_shows_its_battery(
    before: Db,
    after: Db,
    env: Dict<String>,
    path: Seq<char>,
    q: Dict<String>,
    now: Seq<char>,
    today: Seq<char>,
    r: CommandResult,
    id: Seq<char>,
    n: i64,
)
    requires
        shown(before, after, env, path, q, now, today, r),
        segments_of(path) == seq!["b"@, id],
        parsed_int(id) == Some(n),
    ensures
        r is Page,
        after == before,
        match r->page {
            Page::Detail(p) => p.battery.id == n && after.batteries@.contains(p.battery),
            Page::Missing(p) => p == MissingPage::Battery(n) && forall|i: int|
                0 <= i < after.batteries@.len() ==> (#[trigger] after.batteries@[i]).id != n,
            _ => false,
        },
{
    let s = segments_of(path);
    assert(s[0] == "b"@ && s[1] == id);
    reveal_strlit("b");
    reveal_strlit("batch");
    reveal_strlit("match");
    assert("b"@.len() == 1 && "batch"@.len() == 5 && "match"@.len() == 5);
    lemma_at(after.batteries@, n, 0);
    lemma_has(after.batteries@, n);
    let k = crate::db::at(after.batteries@, n, 0);
    if k < after.batteries@.len() {
        assert(after.batteries@.contains(after.batteries@[k]));
    }
}

/// The address that a form leads to after a battery is that of the battery.
pub proof fn a_battery_is_found_at_its_address(id: i64)
    ensures
        segments_of(battery_path(id)) == seq!["b"@, int_text(id as int)],
        parsed_int(int_text(id as int)) == Some(id),
{
    let n = int_text(id as int);
    int_text_reads_back(id);
    reveal_strlit("/b/");
    reveal_strlit("b");
    assert("/b/"@ =~= (Seq::<char>::empty().push('/') + "b"@).push('/'));
    let path = battery_path(id);
    a_number_is_made_of_digits(n);
    assert(!n.contains('/')) by {
        if n.contains('/') {
            let k = n.index_of('/');
            assert('0' <= n[k] <= '9' || (k == 0 && (n[k] == '-' || n[k] == '+')));
        }
    }
    assert(!"b"@.contains('/')) by {
        assert("b"@.len() == 1 && "b"@[0] == 'b');
    }
    let head = Seq::<char>::empty().push('/') + "b"@;
    assert(path =~= head.push('/') + n);
    lemma_split_sides(head, '/', n);
    lemma_split_sides(Seq::<char>::empty(), '/', "b"@);
    lemma_split_whole(n, '/');
    lemma_split_whole("b"@, '/');
    assert(split_on(Seq::<char>::empty(), '/') =~= seq![Seq::<char>::empty()]);
    let parts = split_on(path, '/');
    assert(parts =~= seq![Seq::<char>::empty(), "b"@, n]);
    let one = parts.take(2);
    assert(parts.drop_last() =~= one && parts.last() == n);
    assert(one.drop_last() =~= seq![Seq::<char>::empty()] && one.last() == "b"@);
    reveal_with_fuel(solid, 4);
    assert(one.drop_last().last().len() == 0);
    assert(solid(parts) =~= seq!["b"@, n]);
}

} // verus!
