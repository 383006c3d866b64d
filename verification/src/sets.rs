//! Sets of batteries that are handed out together, and come back together.

use vstd::prelude::*;
use vstd::string::*;
use crate::db::{
    at, find, lemma_kept_views, lemma_views, lemma_views_at, lemma_views_push, lemma_views_update,
    present, row, views_of, Db, DbError, DbErrorView, DbResult, DbView,
};
use crate::rows::{
    clone_ids, Battery, BatteryView, LocationEntry, LocationEntryView, Match, MatchView,
};
use crate::select::{select, Test};
use crate::text::{
    int_text, push_int, same_ignoring_ascii_case, same_ignoring_case, trim, trimmed,
};
use crate::writes::{moved, opt_battery};

verus! {

/// Whether a battery is in the pool, whatever the case of its location.
pub open spec fn in_pool(b: BatteryView, pool: Seq<char>) -> bool {
    same_ignoring_case(b.location, pool)
}

/// Moving the first `n` of some batteries to the pool, those that are not there
/// yet; also says which were moved.
pub open spec fn gathered(
    d: DbView,
    members: Seq<i64>,
    pool: Seq<char>,
    now: Seq<char>,
    n: int,
) -> Result<(DbView, Seq<i64>), DbErrorView>
    decreases n,
{
    if n <= 0 {
        Ok((d, Seq::empty()))
    } else {
        match gathered(d, members, pool, now, n - 1) {
            Err(e) => Err(e),
            Ok((e, ids)) => {
                let id = members[n - 1];
                match row(e.batteries, id) {
                    Some(b) if !in_pool(b, pool) => match moved(e, id, pool, now) {
                        Ok((f, _)) => Ok((f, ids.push(id))),
                        Err(why) => Err(why),
                    },
                    _ => Ok((e, ids)),
                }
            },
        }
    }
}

/// The tables with the match in row `k` closed.
pub open spec fn closed_match(d: DbView, k: int, now: Seq<char>) -> DbView {
    DbView {
        matches: d.matches.update(k, MatchView { returned_at: Some(now), ..d.matches[k] }),
        ..d
    }
}

/// Closing every open match among the first `n` that a battery is in, and
/// gathering the rest of each set.
pub open spec fn sets_returned(d: DbView, id: i64, pool: Seq<char>, now: Seq<char>, n: int) -> Result<
    (DbView, Seq<i64>),
    DbErrorView,
>
    decreases n,
{
    if n <= 0 {
        Ok((d, Seq::empty()))
    } else {
        match sets_returned(d, id, pool, now, n - 1) {
            Err(e) => Err(e),
            Ok((e, ids)) => {
                let m = e.matches[n - 1];
                if m.returned_at is None && m.battery_ids.contains(id) {
                    match gathered(e, m.battery_ids, pool, now, m.battery_ids.len() as int) {
                        Ok((f, more)) => Ok((closed_match(f, n - 1, now), ids + more)),
                        Err(why) => Err(why),
                    }
                } else {
                    Ok((e, ids))
                }
            },
        }
    }
}

/// Moving a battery, and where it goes to the pool, the rest of its set with
/// it; also says which others were moved.
pub open spec fn moved_with_set(
    d: DbView,
    id: i64,
    location: Seq<char>,
    pool: Seq<char>,
    now: Seq<char>,
) -> Result<(DbView, (Option<BatteryView>, Seq<i64>)), DbErrorView> {
    match moved(d, id, location, now) {
        Err(e) => Err(e),
        Ok((e, None)) => Ok((e, (None, Seq::empty()))),
        Ok((e, Some(b))) => if !in_pool(b, pool) {
            Ok((e, (Some(b), Seq::empty())))
        } else {
            match sets_returned(e, id, pool, now, e.matches.len() as int) {
                Ok((f, ids)) => Ok((f, (Some(b), ids))),
                Err(why) => Err(why),
            }
        },
    }
}

/// Moving the first `n` of some batteries to one place. All of them have to be
/// there.
pub open spec fn handed_out(d: DbView, ids: Seq<i64>, location: Seq<char>, now: Seq<char>, n: int) -> Result<
    DbView,
    DbErrorView,
>
    decreases n,
{
    if n <= 0 {
        Ok(d)
    } else {
        match handed_out(d, ids, location, now, n - 1) {
            Err(e) => Err(e),
            Ok(e) => match moved(e, ids[n - 1], location, now) {
                Ok((f, Some(_))) => Ok(f),
                Ok((_, None)) => Err(DbErrorView::ForeignKey),
                Err(why) => Err(why),
            },
        }
    }
}

/// Handing out a set: every battery is moved, and the match is recorded.
pub open spec fn match_created(
    d: DbView,
    location: Seq<char>,
    requested_type: Seq<char>,
    draw: Seq<char>,
    ids: Seq<i64>,
    now: Seq<char>,
) -> Result<(DbView, MatchView), DbErrorView> {
    match handed_out(d, ids, location, now, ids.len() as int) {
        Err(e) => Err(e),
        Ok(e) => if e.last_match == i64::MAX {
            Err(DbErrorView::Full)
        } else {
            let m = MatchView {
                id: (e.last_match + 1) as i64,
                location: trimmed(location),
                requested_type,
                draw,
                created_at: now,
                returned_at: None,
                battery_ids: ids,
            };
            Ok((DbView { matches: e.matches.push(m), last_match: m.id, ..e }, m))
        },
    }
}

/// Returning a set by its match: nothing happens where it is back already.
pub open spec fn match_returned(d: DbView, id: i64, pool: Seq<char>, now: Seq<char>) -> Result<
    (DbView, Seq<i64>),
    DbErrorView,
> {
    let k = at(d.matches, id, 0);
    if k >= d.matches.len() {
        Err(DbErrorView::Invalid("No match has id "@ + int_text(id as int) + "."@))
    } else if d.matches[k].returned_at is Some {
        Ok((d, Seq::empty()))
    } else {
        let members = d.matches[k].battery_ids;
        match gathered(d, members, pool, now, members.len() as int) {
            Ok((e, ids)) => Ok((closed_match(e, k, now), ids)),
            Err(why) => Err(why),
        }
    }
}

pub open spec fn match_is_not(id: i64) -> spec_fn(MatchView) -> bool {
    |m: MatchView| m.id != id
}

/// Deleting a match leaves its batteries where they are.
pub open spec fn match_deleted(d: DbView, id: i64) -> (DbView, bool) {
    if present(d.matches, id) {
        (DbView { matches: d.matches.filter(match_is_not(id)), ..d }, true)
    } else {
        (d, false)
    }
}

pub open spec fn entry_is_not(id: i64) -> spec_fn(LocationEntryView) -> bool {
    |e: LocationEntryView| e.id != id
}

/// Deleting an entry of the location history leaves the battery where it is.
pub open spec fn entry_deleted(d: DbView, id: i64) -> (DbView, Option<i64>) {
    match row(d.history, id) {
        Some(e) => (DbView { history: d.history.filter(entry_is_not(id)), ..d }, Some(e.battery_id)),
        None => (d, None),
    }
}

/// Any other entry than the one with the number.
pub struct OtherEntry {
    pub id: i64,
}

impl Test<LocationEntry> for OtherEntry {
    open spec fn holds(&self, e: LocationEntry) -> bool {
        e.id != self.id
    }

    fn check(&self, e: &LocationEntry) -> (r: bool) {
        e.id != self.id
    }
}

fn contains_id(ids: &Vec<i64>, id: i64) -> (r: bool)
    ensures
        r == ids@.contains(id),
{
    let mut i: usize = 0;
    while i < ids.len()
        invariant
            i <= ids@.len(),
            forall|j: int| 0 <= j < i ==> ids@[j] != id,
        decreases ids@.len() - i,
    {
        if ids[i] == id {
            return true;
        }
        i = i + 1;
    }
    false
}

proof fn lemma_gathered_fails(
    d: DbView,
    members: Seq<i64>,
    pool: Seq<char>,
    now: Seq<char>,
    k: int,
    n: int,
)
    requires
        0 <= k <= n,
        gathered(d, members, pool, now, k) is Err,
    ensures
        gathered(d, members, pool, now, n) == gathered(d, members, pool, now, k),
    decreases n,
{
    if k < n {
        lemma_gathered_fails(d, members, pool, now, k, n - 1);
    }
}

proof fn lemma_sets_fail(d: DbView, id: i64, pool: Seq<char>, now: Seq<char>, k: int, n: int)
    requires
        0 <= k <= n,
        sets_returned(d, id, pool, now, k) is Err,
    ensures
        sets_returned(d, id, pool, now, n) == sets_returned(d, id, pool, now, k),
    decreases n,
{
    if k < n {
        lemma_sets_fail(d, id, pool, now, k, n - 1);
    }
}

proof fn lemma_handing_fails(
    d: DbView,
    ids: Seq<i64>,
    location: Seq<char>,
    now: Seq<char>,
    k: int,
    n: int,
)
    requires
        0 <= k <= n,
        handed_out(d, ids, location, now, k) is Err,
    ensures
        handed_out(d, ids, location, now, n) == handed_out(d, ids, location, now, k),
    decreases n,
{
    if k < n {
        lemma_handing_fails(d, ids, location, now, k, n - 1);
    }
}

proof fn lemma_gathered_matches(
    d: DbView,
    members: Seq<i64>,
    pool: Seq<char>,
    now: Seq<char>,
    n: int,
)
    ensures
        gathered(d, members, pool, now, n) matches Ok((e, _)) ==> e.matches == d.matches,
    decreases n,
{
    if n > 0 {
        lemma_gathered_matches(d, members, pool, now, n - 1);
    }
}

proof fn lemma_sets_matches(d: DbView, id: i64, pool: Seq<char>, now: Seq<char>, n: int)
    requires
        n <= d.matches.len(),
    ensures
        sets_returned(d, id, pool, now, n) matches Ok((e, _)) ==> e.matches.len()
            == d.matches.len(),
    decreases n,
{
    if n > 0 {
        lemma_sets_matches(d, id, pool, now, n - 1);
        if let Ok((e, _)) = sets_returned(d, id, pool, now, n - 1) {
            let m = e.matches[n - 1];
            lemma_gathered_matches(e, m.battery_ids, pool, now, m.battery_ids.len() as int);
        }
    }
}

impl Db {
    /// Moves some batteries to the pool. Where it fails, some may have been
    /// moved.
    fn gather(&mut self, members: &Vec<i64>, pool: &str, now: &str) -> (r: DbResult<Vec<i64>>)
        ensures
            match r {
                Ok(ids) => gathered(old(self)@, members@, pool@, now@, members@.len() as int)
                    == Ok::<(DbView, Seq<i64>), DbErrorView>((final(self)@, ids@)),
                Err(e) => gathered(old(self)@, members@, pool@, now@, members@.len() as int)
                    == Err::<(DbView, Seq<i64>), DbErrorView>(e@),
            },
    {
        let ghost before = self@;
        let mut ids: Vec<i64> = Vec::new();
        let mut i: usize = 0;
        while i < members.len()
            invariant
                i <= members@.len(),
                before == old(self)@,
                gathered(before, members@, pool@, now@, i as int) == Ok::<
                    (DbView, Seq<i64>),
                    DbErrorView,
                >((self@, ids@)),
            decreases members@.len() - i,
        {
            let id = members[i];
            proof {
                lemma_views_at::<BatteryView, Battery>(self.batteries@, id, 0);
                lemma_views(self.batteries@);
            }
            let outside = match find(&self.batteries, id) {
                Some(k) => !same_ignoring_ascii_case(self.batteries[k].location.as_str(), pool),
                None => false,
            };
            if outside {
                match self.set_location(id, pool, now) {
                    Ok(_) => {
                        ids.push(id);
                    },
                    Err(e) => {
                        proof {
                            lemma_gathered_fails(
                                before,
                                members@,
                                pool@,
                                now@,
                                i + 1,
                                members@.len() as int,
                            );
                        }
                        return Err(e);
                    },
                }
            }
            i = i + 1;
        }
        Ok(ids)
    }

    fn close_match(&mut self, k: usize, now: &str)
        requires
            k < old(self).matches@.len(),
        ensures
            final(self)@ == closed_match(old(self)@, k as int, now@),
    {
        let m = &self.matches[k];
        let next = Match {
            id: m.id,
            location: m.location.clone(),
            requested_type: m.requested_type.clone(),
            draw: m.draw.clone(),
            created_at: m.created_at.clone(),
            returned_at: Some(now.to_string()),
            battery_ids: clone_ids(&m.battery_ids),
        };
        proof {
            lemma_views(self.matches@);
            lemma_views_update(self.matches@, k as int, next);
            assert(next@ =~= MatchView { returned_at: Some(now@), ..self@.matches[k as int] });
        }
        self.matches.set(k, next);
    }

    /// Closes the open matches of a battery. Where it fails, some may have been
    /// closed.
    fn return_sets(&mut self, id: i64, pool: &str, now: &str) -> (r: DbResult<Vec<i64>>)
        ensures
            match r {
                Ok(ids) => sets_returned(
                    old(self)@,
                    id,
                    pool@,
                    now@,
                    old(self)@.matches.len() as int,
                ) == Ok::<(DbView, Seq<i64>), DbErrorView>((final(self)@, ids@)),
                Err(e) => sets_returned(
                    old(self)@,
                    id,
                    pool@,
                    now@,
                    old(self)@.matches.len() as int,
                ) == Err::<(DbView, Seq<i64>), DbErrorView>(e@),
            },
    {
        let ghost before = self@;
        let total: usize = self.matches.len();
        let mut ids: Vec<i64> = Vec::new();
        let mut i: usize = 0;
        while i < total
            invariant
                i <= total,
                before == old(self)@,
                total == before.matches.len(),
                self.matches@.len() == total,
                sets_returned(before, id, pool@, now@, i as int) == Ok::<
                    (DbView, Seq<i64>),
                    DbErrorView,
                >((self@, ids@)),
            decreases total - i,
        {
            proof {
                lemma_views(self.matches@);
            }
            let m = &self.matches[i];
            if m.returned_at.is_none() && contains_id(&m.battery_ids, id) {
                let members = clone_ids(&m.battery_ids);
                let ghost here = self@;
                match self.gather(&members, pool, now) {
                    Ok(mut more) => {
                        proof {
                            lemma_gathered_matches(
                                here,
                                members@,
                                pool@,
                                now@,
                                members@.len() as int,
                            );
                            lemma_views(self.matches@);
                        }
                        self.close_match(i, now);
                        proof {
                            lemma_views(self.matches@);
                        }
                        ids.append(&mut more);
                    },
                    Err(e) => {
                        proof {
                            lemma_sets_fail(before, id, pool@, now@, i + 1, total as int);
                        }
                        return Err(e);
                    },
                }
            }
            i = i + 1;
        }
        Ok(ids)
    }

    /// Moves a battery. Where it goes to the pool, every match it is in is
    /// closed and the rest of the set goes there too; says which others did.
    pub fn set_location_checked(
        &mut self,
        battery_id: i64,
        location: &str,
        pool_location: &str,
        now: &str,
    ) -> (r: DbResult<(Option<Battery>, Vec<i64>)>)
        ensures
            match r {
                Ok((b, ids)) => moved_with_set(
                    old(self)@,
                    battery_id,
                    location@,
                    pool_location@,
                    now@,
                ) == Ok::<(DbView, (Option<BatteryView>, Seq<i64>)), DbErrorView>(
                    (final(self)@, (opt_battery(b), ids@)),
                ),
                Err(e) => *final(self) == *old(self) && moved_with_set(
                    old(self)@,
                    battery_id,
                    location@,
                    pool_location@,
                    now@,
                ) == Err::<(DbView, (Option<BatteryView>, Seq<i64>)), DbErrorView>(e@),
            },
    {
        let mut draft = self.clone();
        let b = match draft.set_location(battery_id, location, now) {
            Ok(Some(b)) => b,
            Ok(None) => return Ok((None, Vec::new())),
            Err(e) => return Err(e),
        };
        let mut ids: Vec<i64> = Vec::new();
        if same_ignoring_ascii_case(b.location.as_str(), pool_location) {
            ids = match draft.return_sets(battery_id, pool_location, now) {
                Ok(ids) => ids,
                Err(e) => return Err(e),
            };
        }
        *self = draft;
        Ok((Some(b), ids))
    }

    /// Hands out a set: moves every battery and records the match.
    pub fn create_match(
        &mut self,
        location: &str,
        requested_type: &str,
        draw: &str,
        battery_ids: &Vec<i64>,
        now: &str,
    ) -> (r: DbResult<Match>)
        ensures
            match r {
                Ok(m) => match_created(
                    old(self)@,
                    location@,
                    requested_type@,
                    draw@,
                    battery_ids@,
                    now@,
                ) == Ok::<(DbView, MatchView), DbErrorView>((final(self)@, m@)),
                Err(e) => *final(self) == *old(self) && match_created(
                    old(self)@,
                    location@,
                    requested_type@,
                    draw@,
                    battery_ids@,
                    now@,
                ) == Err::<(DbView, MatchView), DbErrorView>(e@),
            },
    {
        let mut draft = self.clone();
        let ghost before = draft@;
        let mut i: usize = 0;
        while i < battery_ids.len()
            invariant
                i <= battery_ids@.len(),
                before == self@,
                *self == *old(self),
                handed_out(before, battery_ids@, location@, now@, i as int) == Ok::<
                    DbView,
                    DbErrorView,
                >(draft@),
            decreases battery_ids@.len() - i,
        {
            match draft.set_location(battery_ids[i], location, now) {
                Ok(Some(_)) => {},
                Ok(None) => {
                    proof {
                        lemma_handing_fails(
                            before,
                            battery_ids@,
                            location@,
                            now@,
                            i + 1,
                            battery_ids@.len() as int,
                        );
                    }
                    return Err(DbError::ForeignKey);
                },
                Err(e) => {
                    proof {
                        lemma_handing_fails(
                            before,
                            battery_ids@,
                            location@,
                            now@,
                            i + 1,
                            battery_ids@.len() as int,
                        );
                    }
                    return Err(e);
                },
            }
            i = i + 1;
        }
        if draft.last_match == i64::MAX {
            return Err(DbError::Full);
        }
        let m = Match {
            id: draft.last_match + 1,
            location: trim(location).to_string(),
            requested_type: requested_type.to_string(),
            draw: draw.to_string(),
            created_at: now.to_string(),
            returned_at: None,
            battery_ids: clone_ids(battery_ids),
        };
        let out = m.clone();
        proof {
            lemma_views_push(draft.matches@, m);
        }
        draft.last_match = m.id;
        draft.matches.push(m);
        *self = draft;
        Ok(out)
    }

    /// Returns a set to the pool and closes its match; says which batteries
    /// were moved.
    pub fn return_match(&mut self, match_id: i64, pool_location: &str, now: &str) -> (r: DbResult<
        Vec<i64>,
    >)
        ensures
            match r {
                Ok(ids) => match_returned(old(self)@, match_id, pool_location@, now@) == Ok::<
                    (DbView, Seq<i64>),
                    DbErrorView,
                >((final(self)@, ids@)),
                Err(e) => *final(self) == *old(self) && match_returned(
                    old(self)@,
                    match_id,
                    pool_location@,
                    now@,
                ) == Err::<(DbView, Seq<i64>), DbErrorView>(e@),
            },
    {
        proof {
            lemma_views_at::<MatchView, Match>(self.matches@, match_id, 0);
            lemma_views(self.matches@);
        }
        let k = match find(&self.matches, match_id) {
            Some(k) => k,
            None => {
                let mut m = "No match has id ".to_string();
                push_int(&mut m, match_id as i128);
                m.append(".");
                return Err(DbError::Invalid(m));
            },
        };
        if self.matches[k].returned_at.is_some() {
            return Ok(Vec::new());
        }
        let members = clone_ids(&self.matches[k].battery_ids);
        let mut draft = self.clone();
        let ids = match draft.gather(&members, pool_location, now) {
            Ok(ids) => ids,
            Err(e) => return Err(e),
        };
        proof {
            lemma_gathered_matches(
                self@,
                members@,
                pool_location@,
                now@,
                members@.len() as int,
            );
            lemma_views(draft.matches@);
        }
        draft.close_match(k, now);
        *self = draft;
        Ok(ids)
    }

    /// Deletes a match; its batteries stay where they are.
    pub fn delete_match(&mut self, match_id: i64) -> (r: DbResult<bool>)
        ensures
            r matches Ok(b) && (final(self)@, b) == match_deleted(old(self)@, match_id),
    {
        proof {
            lemma_views_at::<MatchView, Match>(self.matches@, match_id, 0);
        }
        if find(&self.matches, match_id).is_none() {
            return Ok(false);
        }
        let mut out: Vec<Match> = Vec::new();
        let mut i: usize = 0;
        let ghost f = match_is_not(match_id);
        proof {
            reveal(Seq::filter);
        }
        assert(views_of(out@) =~= self@.matches.take(0).filter(f));
        while i < self.matches.len()
            invariant
                i <= self.matches@.len(),
                *self == *old(self),
                f == match_is_not(match_id),
                views_of(out@) == self@.matches.take(i as int).filter(f),
            decreases self.matches@.len() - i,
        {
            proof {
                reveal(Seq::filter);
                lemma_views(self.matches@);
            }
            assert(self@.matches.take(i + 1).drop_last() =~= self@.matches.take(i as int));
            if self.matches[i].id != match_id {
                let m = self.matches[i].clone();
                proof {
                    lemma_views_push(out@, m);
                }
                out.push(m);
            }
            i = i + 1;
        }
        assert(self@.matches.take(self.matches@.len() as int) =~= self@.matches);
        self.matches = out;
        Ok(true)
    }

    /// Deletes an entry of the location history, and says which battery it was
    /// of; the battery stays where it is.
    pub fn delete_location_entry(&mut self, id: i64) -> (r: DbResult<Option<i64>>)
        ensures
            r matches Ok(b) && (final(self)@, b) == entry_deleted(old(self)@, id),
    {
        proof {
            lemma_views_at::<LocationEntryView, LocationEntry>(self.history@, id, 0);
            lemma_views(self.history@);
        }
        let battery_id = match find(&self.history, id) {
            Some(i) => self.history[i].battery_id,
            None => return Ok(None),
        };
        let p = OtherEntry { id };
        proof {
            lemma_kept_views(p, self.history@, entry_is_not(id));
        }
        self.history = select(&p, &self.history);
        Ok(Some(battery_id))
    }
}

} // verus!
