//! What can be asked of the tables.

use vstd::prelude::*;
use vstd::string::*;
use crate::db::{at, find, present, row, views_of, Db, DbError, DbErrorView, DbResult};
use crate::order::{
    dated_before, dated_le, lemma_dated_total, lemma_dated_trans, sort, sorted, Alphabetical,
    Ascending, Order,
};
use crate::rows::{
    Battery, Instrument, InstrumentRow, InstrumentRowView, LocationEntry, Match, MatchView,
    Measurement, Mode, SettingView,
};
use crate::select::{kept, select, Test};
use crate::text::{ascii_lower, chars_of, int_text, lower_char, push_int, same};

verus! {

// ── Searching ───────────────────────────────────────────────────────────

/// Whether a text fits a pattern in which `%` stands for any characters and
/// `_` for any one. ASCII letters fit in either case.
pub open spec fn like(pattern: Seq<char>, text: Seq<char>) -> bool
    decreases pattern.len() + text.len(),
{
    if pattern.len() == 0 {
        text.len() == 0
    } else if pattern[0] == '%' {
        like(pattern.skip(1), text) || (text.len() > 0 && like(pattern, text.skip(1)))
    } else {
        text.len() > 0 && (pattern[0] == '_' || ascii_lower(pattern[0]) == ascii_lower(text[0]))
            && like(pattern.skip(1), text.skip(1))
    }
}

/// Whether the rest of a pattern fits a text from somewhere behind `j` on.
pub open spec fn fits_later(pattern: Seq<char>, text: Seq<char>, j: int) -> bool {
    exists|k: int| j < k <= text.len() && #[trigger] like(pattern, text.skip(k))
}

/// What stands behind a `%` has to fit from here or from somewhere behind.
pub proof fn lemma_any(pattern: Seq<char>, text: Seq<char>, j: int)
    requires
        0 <= j <= text.len(),
        pattern.len() > 0,
        pattern[0] == '%',
    ensures
        like(pattern, text.skip(j)) <==> like(pattern.skip(1), text.skip(j)) || fits_later(
            pattern.skip(1),
            text,
            j,
        ),
    decreases text.len() - j,
{
    let rest = pattern.skip(1);
    if j < text.len() {
        assert(text.skip(j).skip(1) =~= text.skip(j + 1));
        lemma_any(pattern, text, j + 1);
        if fits_later(rest, text, j) {
            let k = choose|k: int| j < k <= text.len() && #[trigger] like(rest, text.skip(k));
            if k > j + 1 {
                assert(fits_later(rest, text, j + 1));
            }
        }
    }
}

/// A `%` that fits from somewhere behind fits from here.
proof fn lemma_any_earlier(pattern: Seq<char>, text: Seq<char>, j: int, k: int)
    requires
        0 <= j <= k <= text.len(),
        pattern.len() > 0,
        pattern[0] == '%',
        like(pattern, text.skip(k)),
    ensures
        like(pattern, text.skip(j)),
    decreases k - j,
{
    if j < k {
        lemma_any_earlier(pattern, text, j + 1, k);
        assert(text.skip(j).skip(1) =~= text.skip(j + 1));
    }
}

/// A stretch of a pattern without a `%` takes one character for each of its own.
proof fn lemma_stretch(pattern: Seq<char>, from: int, to: int, text: Seq<char>, k: int)
    requires
        0 <= from <= to <= pattern.len(),
        0 <= k <= text.len(),
        forall|x: int| from <= x < to ==> pattern[x] != '%',
        like(pattern.skip(from), text.skip(k)),
    ensures
        k + (to - from) <= text.len(),
        like(pattern.skip(to), text.skip(k + (to - from))),
    decreases to - from,
{
    if from < to {
        let p = pattern.skip(from);
        assert(p[0] == pattern[from]);
        assert(p.skip(1) =~= pattern.skip(from + 1));
        assert(text.skip(k).skip(1) =~= text.skip(k + 1));
        lemma_stretch(pattern, from + 1, to, text, k + 1);
    }
}

/// Goes through the text once, and back to behind the last `%` wherever what
/// follows it does not fit.
pub fn is_like(pattern: &str, text: &str) -> (r: bool)
    ensures
        r == like(pattern@, text@),
{
    let p = chars_of(pattern);
    let t = chars_of(text);
    let mut i: usize = 0;
    let mut j: usize = 0;
    let mut seen = false;
    let mut behind: usize = 0;
    let mut start: usize = 0;
    assert(p@.skip(0) =~= pattern@ && t@.skip(0) =~= text@);
    while j < t.len()
        invariant
            behind <= i <= p@.len(),
            start <= j <= t@.len(),
            i - behind == j - start,
            forall|x: int| behind <= x < i ==> p@[x] != '%',
            like(pattern@, text@) <==> like(p@.skip(i as int), t@.skip(j as int)) || (seen
                && fits_later(p@.skip(behind as int), t@, start as int)),
        decreases p@.len() - behind, t@.len() - start, t@.len() - j,
    {
        let ghost rest = p@.skip(i as int);
        let ghost left = t@.skip(j as int);
        assert(left.skip(1) =~= t@.skip(j + 1) && left[0] == t@[j as int]);
        if i < p.len() && p[i] == '%' {
            proof {
                assert(rest.skip(1) =~= p@.skip(i + 1) && rest[0] == '%');
                lemma_any(rest, t@, j as int);
                if seen && fits_later(p@.skip(behind as int), t@, start as int) {
                    let k = choose|k: int|
                        start < k <= t@.len() && #[trigger] like(
                            p@.skip(behind as int),
                            t@.skip(k),
                        );
                    lemma_stretch(p@, behind as int, i as int, t@, k);
                    lemma_any_earlier(rest, t@, j as int, k + (i - behind));
                }
            }
            i = i + 1;
            seen = true;
            behind = i;
            start = j;
        } else if i < p.len() && (p[i] == '_' || lower_char(p[i]) == lower_char(t[j])) {
            assert(rest.skip(1) =~= p@.skip(i + 1) && rest[0] == p@[i as int]);
            i = i + 1;
            j = j + 1;
        } else if seen {
            proof {
                if i < p@.len() {
                    assert(rest[0] == p@[i as int]);
                }
                assert(!like(rest, left));
                let again = p@.skip(behind as int);
                if fits_later(again, t@, start as int) {
                    let k = choose|k: int|
                        start < k <= t@.len() && #[trigger] like(again, t@.skip(k));
                    if k > start + 1 {
                        assert(fits_later(again, t@, start + 1));
                    }
                }
                if like(again, t@.skip(start + 1)) {
                    assert(fits_later(again, t@, start as int));
                }
                if fits_later(again, t@, start + 1) {
                    let k = choose|k: int|
                        start + 1 < k <= t@.len() && #[trigger] like(again, t@.skip(k));
                    assert(fits_later(again, t@, start as int));
                }
            }
            start = start + 1;
            i = behind;
            j = start;
        } else {
            proof {
                if i < p@.len() {
                    assert(rest[0] == p@[i as int]);
                }
            }
            return false;
        }
    }
    proof {
        if seen && fits_later(p@.skip(behind as int), t@, start as int) {
            let k = choose|k: int|
                start < k <= t@.len() && #[trigger] like(p@.skip(behind as int), t@.skip(k));
            lemma_stretch(p@, behind as int, i as int, t@, k);
        }
    }
    while i < p.len() && p[i] == '%'
        invariant
            i <= p@.len(),
            j == t@.len(),
            like(pattern@, text@) == like(p@.skip(i as int), t@.skip(j as int)),
        decreases p@.len() - i,
    {
        assert(p@.skip(i as int).skip(1) =~= p@.skip(i + 1) && p@.skip(i as int)[0] == '%');
        i = i + 1;
    }
    proof {
        if i < p@.len() {
            assert(p@.skip(i as int)[0] == p@[i as int]);
        }
    }
    i == p.len()
}

/// Which batteries are listed. An empty filter lets every battery through.
pub struct Filter {
    pub type_filter: String,
    pub location_filter: String,
    pub search: String,
    pub show: String,
}

pub open spec fn passes(
    b: Battery,
    type_filter: Seq<char>,
    location_filter: Seq<char>,
    search: Seq<char>,
    show: Seq<char>,
) -> bool {
    let pattern = "%"@ + search + "%"@;
    &&& show == "active"@ ==> b.deleted_at is None
    &&& show == "deleted"@ && show != "active"@ ==> b.deleted_at is Some
    &&& type_filter.len() > 0 ==> b.cell_type@ == type_filter
    &&& location_filter.len() > 0 ==> b.location@ == location_filter
    &&& search.len() > 0 ==> like(pattern, b.brand@) || like(pattern, b.notes@) || like(
        pattern,
        int_text(b.id as int),
    )
}

impl Test<Battery> for Filter {
    open spec fn holds(&self, b: Battery) -> bool {
        passes(b, self.type_filter@, self.location_filter@, self.search@, self.show@)
    }

    fn check(&self, b: &Battery) -> (r: bool) {
        if same(self.show.as_str(), "active") {
            if b.deleted_at.is_some() {
                return false;
            }
        } else if same(self.show.as_str(), "deleted") && b.deleted_at.is_none() {
            return false;
        }
        if !self.type_filter.as_str().is_empty() && !same(
            b.cell_type.as_str(),
            self.type_filter.as_str(),
        ) {
            return false;
        }
        if !self.location_filter.as_str().is_empty() && !same(
            b.location.as_str(),
            self.location_filter.as_str(),
        ) {
            return false;
        }
        if self.search.as_str().is_empty() {
            return true;
        }
        let mut pattern = "%".to_string();
        pattern.append(self.search.as_str());
        pattern.append("%");
        let mut number = String::new();
        push_int(&mut number, b.id as i128);
        assert(number@ =~= int_text(b.id as int));
        is_like(pattern.as_str(), b.brand.as_str()) || is_like(pattern.as_str(), b.notes.as_str())
            || is_like(pattern.as_str(), number.as_str())
    }
}

/// The batteries that pass a filter, in table order.
pub open spec fn filtered(
    rows: Seq<Battery>,
    type_filter: Seq<char>,
    location_filter: Seq<char>,
    search: Seq<char>,
    show: Seq<char>,
) -> Seq<Battery>
    decreases rows.len(),
{
    if rows.len() == 0 {
        rows
    } else {
        let before = filtered(rows.drop_last(), type_filter, location_filter, search, show);
        if passes(rows.last(), type_filter, location_filter, search, show) {
            before.push(rows.last())
        } else {
            before
        }
    }
}

pub proof fn lemma_filtered(rows: Seq<Battery>, f: Filter)
    ensures
        kept(f, rows) == filtered(rows, f.type_filter@, f.location_filter@, f.search@, f.show@),
    decreases rows.len(),
{
    if rows.len() > 0 {
        lemma_filtered(rows.drop_last(), f);
    }
}

/// What a list of batteries goes by; the number decides between equals.
#[derive(Clone, Copy, PartialEq, Eq, Structural)]
pub enum SortBy {
    Id,
    CellType,
    Location,
}

impl Order<Battery> for SortBy {
    open spec fn le(&self, a: Battery, b: Battery) -> bool {
        match self {
            SortBy::Id => a.id <= b.id,
            SortBy::CellType => dated_le(a.cell_type@, a.id, b.cell_type@, b.id),
            SortBy::Location => dated_le(a.location@, a.id, b.location@, b.id),
        }
    }

    proof fn total(&self, a: Battery, b: Battery) {
        lemma_dated_total(a.cell_type@, a.id, b.cell_type@, b.id);
        lemma_dated_total(a.location@, a.id, b.location@, b.id);
    }

    proof fn trans(&self, a: Battery, b: Battery, c: Battery) {
        match self {
            SortBy::Id => {},
            SortBy::CellType => lemma_dated_trans(
                a.cell_type@,
                a.id,
                b.cell_type@,
                b.id,
                c.cell_type@,
                c.id,
            ),
            SortBy::Location => lemma_dated_trans(
                a.location@,
                a.id,
                b.location@,
                b.id,
                c.location@,
                c.id,
            ),
        }
    }

    fn is_le(&self, a: &Battery, b: &Battery) -> (r: bool) {
        match self {
            SortBy::Id => a.id <= b.id,
            SortBy::CellType => dated_before(a.cell_type.as_str(), a.id, b.cell_type.as_str(), b.id),
            SortBy::Location => dated_before(a.location.as_str(), a.id, b.location.as_str(), b.id),
        }
    }
}

pub open spec fn sort_by(sort: Seq<char>) -> SortBy {
    if sort == "type"@ {
        SortBy::CellType
    } else if sort == "location"@ {
        SortBy::Location
    } else {
        SortBy::Id
    }
}

/// Where a window on `len` rows begins and ends: at most `limit` rows (all, if
/// it is negative) after the first `offset`.
pub open spec fn window(len: int, limit: i64, offset: i64) -> (int, int) {
    let from = if offset < 0 {
        0
    } else if offset > len {
        len
    } else {
        offset as int
    };
    let to = if limit < 0 || from + limit > len {
        len
    } else {
        from + limit
    };
    (from, to)
}

/// The batteries that are listed, in order.
pub open spec fn listed(
    rows: Seq<Battery>,
    type_filter: Seq<char>,
    location_filter: Seq<char>,
    search: Seq<char>,
    show: Seq<char>,
    sort: Seq<char>,
) -> Seq<Battery> {
    sorted(sort_by(sort), filtered(rows, type_filter, location_filter, search, show))
}

// ── Numbers ─────────────────────────────────────────────────────────────

/// The highest number of a battery, if there is one.
pub open spec fn highest(rows: Seq<Battery>) -> Option<i64>
    decreases rows.len(),
{
    if rows.len() == 0 {
        None
    } else {
        match highest(rows.drop_last()) {
            Some(h) if h >= rows.last().id => Some(h),
            _ => Some(rows.last().id),
        }
    }
}

/// The number that the next battery would get.
pub open spec fn next_number(rows: Seq<Battery>) -> Option<i64> {
    match highest(rows) {
        Some(h) if h == i64::MAX => None,
        Some(h) => Some((h + 1) as i64),
        None => Some(1),
    }
}

/// The highest number is that of a battery, and no battery has a higher one.
pub proof fn highest_is_highest(rows: Seq<Battery>)
    ensures
        highest(rows) is None <==> rows.len() == 0,
        highest(rows) matches Some(h) ==> {
            &&& present(rows, h)
            &&& forall|i: int| 0 <= i < rows.len() ==> (#[trigger] rows[i]).id <= h
        },
    decreases rows.len(),
{
    if rows.len() > 0 {
        let d = rows.drop_last();
        highest_is_highest(d);
        let h = highest(rows)->0;
        crate::db::lemma_has(rows, h);
        crate::db::lemma_has(d, h);
        if h == rows.last().id {
            assert(rows[rows.len() - 1].id == h);
        } else {
            let i = choose|i: int| 0 <= i < d.len() && (#[trigger] d[i]).id == h;
            assert(rows[i].id == h);
        }
        assert forall|i: int| 0 <= i < rows.len() implies (#[trigger] rows[i]).id <= h by {
            if i < d.len() {
                assert(d[i].id <= highest(d)->0);
            }
        }
    }
}

/// The nearest number below one that a battery present, deleted ones counted.
pub open spec fn number_below(rows: Seq<Battery>, id: i64) -> Option<i64>
    decreases rows.len(),
{
    if rows.len() == 0 {
        None
    } else {
        let before = number_below(rows.drop_last(), id);
        let here = rows.last().id;
        if here < id && (before matches Some(b) ==> b < here) {
            Some(here)
        } else {
            before
        }
    }
}

/// The nearest number above one that a battery present, deleted ones counted.
pub open spec fn number_above(rows: Seq<Battery>, id: i64) -> Option<i64>
    decreases rows.len(),
{
    if rows.len() == 0 {
        None
    } else {
        let before = number_above(rows.drop_last(), id);
        let here = rows.last().id;
        if here > id && (before matches Some(b) ==> b > here) {
            Some(here)
        } else {
            before
        }
    }
}

/// A battery with one of the given numbers.
pub struct WithNumber {
    pub ids: Vec<i64>,
}

impl Test<Battery> for WithNumber {
    open spec fn holds(&self, b: Battery) -> bool {
        self.ids@.contains(b.id)
    }

    fn check(&self, b: &Battery) -> (r: bool) {
        let mut i: usize = 0;
        while i < self.ids.len()
            invariant
                i <= self.ids@.len(),
                forall|j: int| 0 <= j < i ==> self.ids@[j] != b.id,
            decreases self.ids@.len() - i,
        {
            if self.ids[i] == b.id {
                return true;
            }
            i = i + 1;
        }
        false
    }
}

/// The numbers of the batteries among `ids`, in table order.
pub open spec fn numbers_among(rows: Seq<Battery>, ids: Seq<i64>) -> Seq<i64>
    decreases rows.len(),
{
    if rows.len() == 0 {
        Seq::empty()
    } else if ids.contains(rows.last().id) {
        numbers_among(rows.drop_last(), ids).push(rows.last().id)
    } else {
        numbers_among(rows.drop_last(), ids)
    }
}

// ── Columns ─────────────────────────────────────────────────────────────

/// A column that suggestions are taken from.
#[derive(Clone, Copy, PartialEq, Eq, Structural)]
pub enum Column {
    CellType,
    Brand,
    Location,
}

pub open spec fn column_named(name: Seq<char>) -> Option<Column> {
    if name == "type"@ {
        Some(Column::CellType)
    } else if name == "brand"@ {
        Some(Column::Brand)
    } else if name == "location"@ {
        Some(Column::Location)
    } else {
        None
    }
}

/// The names of the columns tell them apart.
pub proof fn lemma_columns()
    ensures
        column_named("type"@) == Some(Column::CellType),
        column_named("brand"@) == Some(Column::Brand),
        column_named("location"@) == Some(Column::Location),
{
    reveal_strlit("type");
    reveal_strlit("brand");
    reveal_strlit("location");
    assert("type"@[0] == 't' && "brand"@[0] == 'b' && "location"@[0] == 'l');
}

pub open spec fn in_column(b: Battery, c: Column) -> String {
    match c {
        Column::CellType => b.cell_type,
        Column::Brand => b.brand,
        Column::Location => b.location,
    }
}

fn column_value(b: &Battery, c: Column) -> (r: &String)
    ensures
        *r == in_column(*b, c),
{
    match c {
        Column::CellType => &b.cell_type,
        Column::Brand => &b.brand,
        Column::Location => &b.location,
    }
}

fn check_column(column: &str) -> (r: DbResult<Column>)
    ensures
        match r {
            Ok(c) => column_named(column@) == Some(c),
            Err(e) => column_named(column@) is None && e@ == DbErrorView::Invalid(column@),
        },
{
    if same(column, "type") {
        Ok(Column::CellType)
    } else if same(column, "brand") {
        Ok(Column::Brand)
    } else if same(column, "location") {
        Ok(Column::Location)
    } else {
        Err(DbError::Invalid(column.to_string()))
    }
}

pub open spec fn seen(values: Seq<String>, v: Seq<char>) -> bool {
    exists|i: int| 0 <= i < values.len() && (#[trigger] values[i])@ == v
}

fn was_seen(values: &Vec<String>, v: &str) -> (r: bool)
    ensures
        r == seen(values@, v@),
{
    let mut i: usize = 0;
    while i < values.len()
        invariant
            i <= values@.len(),
            forall|j: int| 0 <= j < i ==> (#[trigger] values@[j])@ != v@,
        decreases values@.len() - i,
    {
        if same(values[i].as_str(), v) {
            return true;
        }
        i = i + 1;
    }
    false
}

/// Whether a battery counts for a column: it is not deleted, and has a value
/// there unless empty ones count too.
pub open spec fn counts(b: Battery, c: Column, empty_too: bool) -> bool {
    b.deleted_at is None && (empty_too || in_column(b, c)@.len() > 0)
}

fn does_count(b: &Battery, c: Column, empty_too: bool) -> (r: bool)
    ensures
        r == counts(*b, c, empty_too),
{
    b.deleted_at.is_none() && (empty_too || !column_value(b, c).as_str().is_empty())
}

/// The values of a column among the batteries that count, each once.
pub open spec fn values_in(rows: Seq<Battery>, c: Column, empty_too: bool) -> Seq<String>
    decreases rows.len(),
{
    if rows.len() == 0 {
        Seq::empty()
    } else {
        let before = values_in(rows.drop_last(), c, empty_too);
        let v = in_column(rows.last(), c);
        if counts(rows.last(), c, empty_too) && !seen(before, v@) {
            before.push(v)
        } else {
            before
        }
    }
}

fn collect_values(rows: &Vec<Battery>, c: Column, empty_too: bool) -> (r: Vec<String>)
    ensures
        r@ == values_in(rows@, c, empty_too),
{
    let mut out: Vec<String> = Vec::new();
    let mut i: usize = 0;
    assert(out@ =~= values_in(rows@.take(0), c, empty_too));
    while i < rows.len()
        invariant
            i <= rows@.len(),
            out@ == values_in(rows@.take(i as int), c, empty_too),
        decreases rows@.len() - i,
    {
        assert(rows@.take(i + 1).drop_last() =~= rows@.take(i as int));
        if does_count(&rows[i], c, empty_too) {
            let v = column_value(&rows[i], c);
            if !was_seen(&out, v.as_str()) {
                out.push(v.clone());
            }
        }
        i = i + 1;
    }
    assert(rows@.take(rows@.len() as int) =~= rows@);
    out
}

/// How many batteries that count have a value in a column.
pub open spec fn uses(rows: Seq<Battery>, c: Column, v: Seq<char>) -> int
    decreases rows.len(),
{
    if rows.len() == 0 {
        0
    } else {
        uses(rows.drop_last(), c, v) + (if rows.last().deleted_at is None && in_column(
            rows.last(),
            c,
        )@ == v {
            1int
        } else {
            0
        })
    }
}

fn count_uses(rows: &Vec<Battery>, c: Column, v: &str) -> (r: usize)
    ensures
        r == uses(rows@, c, v@),
{
    let mut n: usize = 0;
    let mut i: usize = 0;
    while i < rows.len()
        invariant
            i <= rows@.len(),
            n <= i,
            n == uses(rows@.take(i as int), c, v@),
        decreases rows@.len() - i,
    {
        assert(rows@.take(i + 1).drop_last() =~= rows@.take(i as int));
        if rows[i].deleted_at.is_none() && same(column_value(&rows[i], c).as_str(), v) {
            n = n + 1;
        }
        i = i + 1;
    }
    assert(rows@.take(rows@.len() as int) =~= rows@);
    n
}

/// Values in the order of how often they are used, the alphabet deciding
/// between equals.
pub struct ByUse {
    pub rows: Vec<Battery>,
    pub column: Column,
}

pub open spec fn no_less_used(rows: Seq<Battery>, c: Column, a: Seq<char>, b: Seq<char>) -> bool {
    uses(rows, c, a) > uses(rows, c, b) || (uses(rows, c, a) == uses(rows, c, b)
        && !crate::text::text_lt(b, a))
}

impl Order<String> for ByUse {
    open spec fn le(&self, a: String, b: String) -> bool {
        no_less_used(self.rows@, self.column, a@, b@)
    }

    proof fn total(&self, a: String, b: String) {
        Alphabetical.total(a, b);
    }

    proof fn trans(&self, a: String, b: String, c: String) {
        if uses(self.rows@, self.column, a@) == uses(self.rows@, self.column, b@) && uses(
            self.rows@,
            self.column,
            b@,
        ) == uses(self.rows@, self.column, c@) {
            Alphabetical.trans(a, b, c);
        }
    }

    fn is_le(&self, a: &String, b: &String) -> (r: bool) {
        let x = count_uses(&self.rows, self.column, a.as_str());
        let y = count_uses(&self.rows, self.column, b.as_str());
        x > y || (x == y && Alphabetical.is_le(a, b))
    }
}

/// The values of a column in the order of how often they are used.
pub open spec fn by_use(rows: Seq<Battery>, c: Column, values: Seq<String>) -> Seq<String>
    decreases values.len(),
{
    if values.len() == 0 {
        values
    } else {
        put_by_use(rows, c, by_use(rows, c, values.drop_last()), values.last())
    }
}

/// A value put behind all that are used no less.
pub open spec fn put_by_use(rows: Seq<Battery>, c: Column, s: Seq<String>, v: String) -> Seq<String>
    decreases s.len(),
{
    if s.len() == 0 || no_less_used(rows, c, s.last()@, v@) {
        s.push(v)
    } else {
        put_by_use(rows, c, s.drop_last(), v).push(s.last())
    }
}

proof fn lemma_put_by_use(o: ByUse, s: Seq<String>, v: String)
    ensures
        crate::order::inserted(o, s, v) == put_by_use(o.rows@, o.column, s, v),
    decreases s.len(),
{
    if s.len() > 0 {
        lemma_put_by_use(o, s.drop_last(), v);
    }
}

pub proof fn lemma_by_use(o: ByUse, values: Seq<String>)
    ensures
        sorted(o, values) == by_use(o.rows@, o.column, values),
    decreases values.len(),
{
    if values.len() > 0 {
        lemma_by_use(o, values.drop_last());
        lemma_put_by_use(o, sorted(o, values.drop_last()), values.last());
    }
}

// ── Rows of one battery or instrument ───────────────────────────────────

/// A reading of one battery.
pub struct OfBattery {
    pub battery_id: i64,
}

impl Test<Measurement> for OfBattery {
    open spec fn holds(&self, m: Measurement) -> bool {
        m.battery_id == self.battery_id
    }

    fn check(&self, m: &Measurement) -> (r: bool) {
        m.battery_id == self.battery_id
    }
}

impl Test<LocationEntry> for OfBattery {
    open spec fn holds(&self, e: LocationEntry) -> bool {
        e.battery_id == self.battery_id
    }

    fn check(&self, e: &LocationEntry) -> (r: bool) {
        e.battery_id == self.battery_id
    }
}

/// The newest first.
pub struct Newest;

impl Order<Measurement> for Newest {
    open spec fn le(&self, a: Measurement, b: Measurement) -> bool {
        dated_le(b.measured_at@, b.id, a.measured_at@, a.id)
    }

    proof fn total(&self, a: Measurement, b: Measurement) {
        lemma_dated_total(a.measured_at@, a.id, b.measured_at@, b.id);
    }

    proof fn trans(&self, a: Measurement, b: Measurement, c: Measurement) {
        lemma_dated_trans(c.measured_at@, c.id, b.measured_at@, b.id, a.measured_at@, a.id);
    }

    fn is_le(&self, a: &Measurement, b: &Measurement) -> (r: bool) {
        dated_before(b.measured_at.as_str(), b.id, a.measured_at.as_str(), a.id)
    }
}

impl Order<LocationEntry> for Newest {
    open spec fn le(&self, a: LocationEntry, b: LocationEntry) -> bool {
        dated_le(b.moved_at@, b.id, a.moved_at@, a.id)
    }

    proof fn total(&self, a: LocationEntry, b: LocationEntry) {
        lemma_dated_total(a.moved_at@, a.id, b.moved_at@, b.id);
    }

    proof fn trans(&self, a: LocationEntry, b: LocationEntry, c: LocationEntry) {
        lemma_dated_trans(c.moved_at@, c.id, b.moved_at@, b.id, a.moved_at@, a.id);
    }

    fn is_le(&self, a: &LocationEntry, b: &LocationEntry) -> (r: bool) {
        dated_before(b.moved_at.as_str(), b.id, a.moved_at.as_str(), a.id)
    }
}

/// The readings of a battery, newest first.
pub open spec fn readings(rows: Seq<Measurement>, battery_id: i64) -> Seq<Measurement> {
    sorted(Newest, kept(OfBattery { battery_id }, rows))
}

/// The moves of a battery, newest first.
pub open spec fn moves(rows: Seq<LocationEntry>, battery_id: i64) -> Seq<LocationEntry> {
    sorted(Newest, kept(OfBattery { battery_id }, rows))
}

/// The reading with the highest number among those by an instrument.
pub open spec fn latest_by_instrument(rows: Seq<Measurement>) -> Option<Measurement>
    decreases rows.len(),
{
    if rows.len() == 0 {
        None
    } else {
        let before = latest_by_instrument(rows.drop_last());
        if rows.last().instrument_id is Some && (before matches Some(b) ==> b.id
            <= rows.last().id) {
            Some(rows.last())
        } else {
            before
        }
    }
}

/// A procedure of one instrument.
pub struct OfInstrument {
    pub instrument_id: i64,
}

impl Test<Mode> for OfInstrument {
    open spec fn holds(&self, m: Mode) -> bool {
        m.instrument_id == self.instrument_id
    }

    fn check(&self, m: &Mode) -> (r: bool) {
        m.instrument_id == self.instrument_id
    }
}

/// Procedures in display order.
pub struct ByPosition;

impl Order<Mode> for ByPosition {
    open spec fn le(&self, a: Mode, b: Mode) -> bool {
        a.position < b.position || (a.position == b.position && a.id <= b.id)
    }

    proof fn total(&self, a: Mode, b: Mode) {
    }

    proof fn trans(&self, a: Mode, b: Mode, c: Mode) {
    }

    fn is_le(&self, a: &Mode, b: &Mode) -> (r: bool) {
        a.position < b.position || (a.position == b.position && a.id <= b.id)
    }
}

/// The procedures of an instrument, in display order.
pub open spec fn modes_of(rows: Seq<Mode>, instrument_id: i64) -> Seq<Mode> {
    sorted(ByPosition, kept(OfInstrument { instrument_id }, rows))
}

/// Instruments by name.
pub struct ByName;

impl Order<InstrumentRow> for ByName {
    open spec fn le(&self, a: InstrumentRow, b: InstrumentRow) -> bool {
        !crate::text::text_lt(b.name@, a.name@)
    }

    proof fn total(&self, a: InstrumentRow, b: InstrumentRow) {
        crate::text::lemma_text_lt_total(a.name@, b.name@);
    }

    proof fn trans(&self, a: InstrumentRow, b: InstrumentRow, c: InstrumentRow) {
        crate::order::lemma_not_lt_trans(a.name@, b.name@, c.name@);
    }

    fn is_le(&self, a: &InstrumentRow, b: &InstrumentRow) -> (r: bool) {
        !crate::text::before(b.name.as_str(), a.name.as_str())
    }
}

/// An instrument as it is handed out: its row, and its procedures in display
/// order.
pub open spec fn is_instrument(i: Instrument, row: InstrumentRow, modes: Seq<Mode>) -> bool {
    &&& i.id == row.id
    &&& i.name == row.name
    &&& i.slots == row.slots
    &&& i.created_at == row.created_at
    &&& i.updated_at == row.updated_at
    &&& i.modes@ == modes_of(modes, row.id)
}

/// The row behind an instrument.
pub open spec fn instrument_row(i: Instrument) -> InstrumentRowView {
    InstrumentRowView {
        id: i.id,
        name: i.name@,
        slots: i.slots,
        created_at: i.created_at@,
        updated_at: i.updated_at@,
    }
}

/// All instruments by name, as they are handed out.
pub open spec fn are_instruments(
    v: Seq<Instrument>,
    rows: Seq<InstrumentRow>,
    modes: Seq<Mode>,
) -> bool {
    v.len() == sorted(ByName, rows).len() && forall|i: int|
        0 <= i < v.len() ==> is_instrument(#[trigger] v[i], sorted(ByName, rows)[i], modes)
}

/// The value stored under a key.
pub open spec fn stored(settings: Seq<SettingView>, key: Seq<char>) -> Option<Seq<char>>
    decreases settings.len(),
{
    if settings.len() == 0 {
        None
    } else if settings.last().key == key {
        Some(settings.last().value)
    } else {
        stored(settings.drop_last(), key)
    }
}

/// The matches as they are listed, the newest first.
pub open spec fn log_of(matches: Seq<MatchView>) -> Seq<MatchView> {
    matches.reverse()
}

fn text_string(s: &str) -> (r: String)
    ensures
        r@ == s@,
{
    s.to_string()
}

impl Db {
    /// The number that the next battery would get: one above the highest.
    pub fn next_id(&self) -> (r: DbResult<i64>)
        ensures
            match r {
                Ok(id) => next_number(self.batteries@) == Some(id),
                Err(e) => next_number(self.batteries@) is None && e@ == DbErrorView::Full,
            },
    {
        let mut top: Option<i64> = None;
        let mut i: usize = 0;
        while i < self.batteries.len()
            invariant
                i <= self.batteries@.len(),
                top == highest(self.batteries@.take(i as int)),
            decreases self.batteries@.len() - i,
        {
            assert(self.batteries@.take(i + 1).drop_last() =~= self.batteries@.take(i as int));
            let here = self.batteries[i].id;
            top = match top {
                Some(h) if h >= here => Some(h),
                _ => Some(here),
            };
            i = i + 1;
        }
        assert(self.batteries@.take(self.batteries@.len() as int) =~= self.batteries@);
        match top {
            Some(h) => if h == i64::MAX {
                Err(DbError::Full)
            } else {
                Ok(h + 1)
            },
            None => Ok(1),
        }
    }

    /// The batteries that pass the filters, in order; with a limit only a
    /// window of them.
    pub fn list_batteries(
        &self,
        type_filter: &str,
        location_filter: &str,
        search: &str,
        show: &str,
        sort_column: &str,
        limit: Option<i64>,
        offset: i64,
    ) -> (r: DbResult<Vec<Battery>>)
        ensures
            r matches Ok(v) && v@ == ({
                let all = listed(
                    self.batteries@,
                    type_filter@,
                    location_filter@,
                    search@,
                    show@,
                    sort_column@,
                );
                match limit {
                    Some(l) => all.subrange(
                        window(all.len() as int, l, offset).0,
                        window(all.len() as int, l, offset).1,
                    ),
                    None => all,
                }
            }),
    {
        let filter = Filter {
            type_filter: text_string(type_filter),
            location_filter: text_string(location_filter),
            search: text_string(search),
            show: text_string(show),
        };
        let found = select(&filter, &self.batteries);
        proof {
            lemma_filtered(self.batteries@, filter);
        }
        let by = if same(sort_column, "type") {
            SortBy::CellType
        } else if same(sort_column, "location") {
            SortBy::Location
        } else {
            SortBy::Id
        };
        let all = sort(&by, found);
        let limit = match limit {
            Some(l) => l,
            None => return Ok(all),
        };
        let len: usize = all.len();
        let from: usize = if offset < 0 {
            0
        } else if offset as u128 > len as u128 {
            len
        } else {
            offset as usize
        };
        let to: usize = if limit < 0 || from as u128 + limit as u128 > len as u128 {
            len
        } else {
            from + limit as usize
        };
        let mut out: Vec<Battery> = Vec::new();
        let mut i: usize = from;
        while i < to
            invariant
                from <= i <= to <= all@.len(),
                out@ == all@.subrange(from as int, i as int),
            decreases to - i,
        {
            out.push(all[i].clone());
            assert(out@ =~= all@.subrange(from as int, i + 1));
            i = i + 1;
        }
        Ok(out)
    }

    /// How many batteries pass the filters.
    pub fn count_batteries(
        &self,
        type_filter: &str,
        location_filter: &str,
        search: &str,
        show: &str,
    ) -> (r: DbResult<usize>)
        ensures
            r matches Ok(n) && n == filtered(
                self.batteries@,
                type_filter@,
                location_filter@,
                search@,
                show@,
            ).len(),
    {
        let filter = Filter {
            type_filter: text_string(type_filter),
            location_filter: text_string(location_filter),
            search: text_string(search),
            show: text_string(show),
        };
        proof {
            lemma_filtered(self.batteries@, filter);
        }
        Ok(select(&filter, &self.batteries).len())
    }

    /// The battery with a number, if there is one.
    pub fn get(&self, battery_id: i64) -> (r: DbResult<Option<Battery>>)
        ensures
            r matches Ok(b) && b == row(self.batteries@, battery_id),
    {
        Ok(
            match find(&self.batteries, battery_id) {
                Some(i) => Some(self.batteries[i].clone()),
                None => None,
            },
        )
    }

    /// The numbers of the batteries before and after one, deleted ones counted.
    pub fn adjacent_ids(&self, battery_id: i64) -> (r: DbResult<(Option<i64>, Option<i64>)>)
        ensures
            r matches Ok(p) && p == (
                number_below(self.batteries@, battery_id),
                number_above(self.batteries@, battery_id),
            ),
    {
        let mut below: Option<i64> = None;
        let mut above: Option<i64> = None;
        let mut i: usize = 0;
        while i < self.batteries.len()
            invariant
                i <= self.batteries@.len(),
                below == number_below(self.batteries@.take(i as int), battery_id),
                above == number_above(self.batteries@.take(i as int), battery_id),
            decreases self.batteries@.len() - i,
        {
            assert(self.batteries@.take(i + 1).drop_last() =~= self.batteries@.take(i as int));
            let here = self.batteries[i].id;
            if here < battery_id && match below {
                Some(b) => b < here,
                None => true,
            } {
                below = Some(here);
            }
            if here > battery_id && match above {
                Some(b) => b > here,
                None => true,
            } {
                above = Some(here);
            }
            i = i + 1;
        }
        assert(self.batteries@.take(self.batteries@.len() as int) =~= self.batteries@);
        Ok((below, above))
    }

    /// Where a battery has been, newest first.
    pub fn history(&self, battery_id: i64) -> (r: DbResult<Vec<LocationEntry>>)
        ensures
            r matches Ok(v) && v@ == moves(self.history@, battery_id),
    {
        Ok(sort(&Newest, select(&OfBattery { battery_id }, &self.history)))
    }

    /// The values of a column that are in use, in alphabetical order.
    pub fn distinct(&self, column: &str) -> (r: DbResult<Vec<String>>)
        ensures
            match r {
                Ok(v) => column_named(column@) matches Some(c) && v@ == sorted(
                    Alphabetical,
                    values_in(self.batteries@, c, false),
                ),
                Err(e) => column_named(column@) is None && e@ == DbErrorView::Invalid(column@),
            },
    {
        match check_column(column) {
            Ok(c) => Ok(sort(&Alphabetical, collect_values(&self.batteries, c, false))),
            Err(e) => Err(e),
        }
    }

    /// The values of a column that are used most, at most `limit` of them (all,
    /// if it is negative).
    pub fn popular(&self, column: &str, limit: i64) -> (r: DbResult<Vec<String>>)
        ensures
            match r {
                Ok(v) => column_named(column@) matches Some(c) && v@ == ({
                    let all = by_use(self.batteries@, c, values_in(self.batteries@, c, false));
                    all.take(window(all.len() as int, limit, 0).1)
                }),
                Err(e) => column_named(column@) is None && e@ == DbErrorView::Invalid(column@),
            },
    {
        let c = match check_column(column) {
            Ok(c) => c,
            Err(e) => return Err(e),
        };
        let order = ByUse { rows: crate::db::duplicate_all(&self.batteries), column: c };
        let values = collect_values(&self.batteries, c, false);
        proof {
            lemma_by_use(order, values@);
        }
        let all = sort(&order, values);
        let len: usize = all.len();
        let to: usize = if limit < 0 || limit as u128 > len as u128 {
            len
        } else {
            limit as usize
        };
        let mut out: Vec<String> = Vec::new();
        let mut i: usize = 0;
        while i < to
            invariant
                i <= to <= all@.len(),
                out@ == all@.take(i as int),
            decreases to - i,
        {
            out.push(all[i].clone());
            assert(out@ =~= all@.take(i + 1));
            i = i + 1;
        }
        Ok(out)
    }

    /// How many active batteries there are of each type, by type.
    pub fn summary(&self) -> (r: DbResult<Vec<(String, usize)>>)
        ensures
            r matches Ok(v) && ({
                let types = sorted(Alphabetical, values_in(self.batteries@, Column::CellType, true));
                v@.len() == types.len() && forall|i: int|
                    0 <= i < v@.len() ==> (#[trigger] v@[i]).0 == types[i] && v@[i].1 == uses(
                        self.batteries@,
                        Column::CellType,
                        types[i]@,
                    )
            }),
    {
        let types = sort(&Alphabetical, collect_values(&self.batteries, Column::CellType, true));
        let mut out: Vec<(String, usize)> = Vec::new();
        let mut i: usize = 0;
        while i < types.len()
            invariant
                i <= types@.len(),
                out@.len() == i,
                forall|j: int|
                    0 <= j < i ==> (#[trigger] out@[j]).0 == types@[j] && out@[j].1 == uses(
                        self.batteries@,
                        Column::CellType,
                        types@[j]@,
                    ),
            decreases types@.len() - i,
        {
            let n = count_uses(&self.batteries, Column::CellType, types[i].as_str());
            out.push((types[i].clone(), n));
            i = i + 1;
        }
        Ok(out)
    }

    /// Those of the given numbers that a battery present, from small to large.
    pub fn ids_in_use(&self, ids: &Vec<i64>) -> (r: DbResult<Vec<i64>>)
        ensures
            r matches Ok(v) && v@ == sorted(Ascending, numbers_among(self.batteries@, ids@)),
    {
        let wanted = WithNumber { ids: crate::rows::clone_ids(ids) };
        let mut out: Vec<i64> = Vec::new();
        let mut i: usize = 0;
        assert(out@ =~= numbers_among(self.batteries@.take(0), ids@));
        while i < self.batteries.len()
            invariant
                i <= self.batteries@.len(),
                wanted.ids@ == ids@,
                out@ == numbers_among(self.batteries@.take(i as int), ids@),
            decreases self.batteries@.len() - i,
        {
            assert(self.batteries@.take(i + 1).drop_last() =~= self.batteries@.take(i as int));
            if wanted.check(&self.batteries[i]) {
                out.push(self.batteries[i].id);
            }
            i = i + 1;
        }
        assert(self.batteries@.take(self.batteries@.len() as int) =~= self.batteries@);
        Ok(sort(&Ascending, out))
    }

    /// How many batteries are deleted.
    pub fn deleted_count(&self) -> (r: DbResult<usize>)
        ensures
            r matches Ok(n) && n == filtered(
                self.batteries@,
                ""@,
                ""@,
                ""@,
                "deleted"@,
            ).len(),
    {
        self.count_batteries("", "", "", "deleted")
    }

    /// The instrument, the procedure and the currents of the latest reading by
    /// an instrument.
    pub fn last_reading_defaults(&self) -> (r: DbResult<
        (Option<i64>, Option<i64>, Option<i64>, Option<i64>),
    >)
        ensures
            r matches Ok(d) && d == (match latest_by_instrument(self.measurements@) {
                Some(m) => (m.instrument_id, m.mode_id, m.discharge_ma, m.charge_ma),
                None => (None, None, None, None),
            }),
    {
        let mut best: Option<usize> = None;
        let mut i: usize = 0;
        while i < self.measurements.len()
            invariant
                i <= self.measurements@.len(),
                match (best, latest_by_instrument(self.measurements@.take(i as int))) {
                    (Some(k), Some(m)) => k < i && self.measurements@[k as int] == m,
                    (None, None) => true,
                    _ => false,
                },
            decreases self.measurements@.len() - i,
        {
            assert(self.measurements@.take(i + 1).drop_last() =~= self.measurements@.take(i as int));
            if self.measurements[i].instrument_id.is_some() && match best {
                Some(k) => self.measurements[k].id <= self.measurements[i].id,
                None => true,
            } {
                best = Some(i);
            }
            i = i + 1;
        }
        assert(self.measurements@.take(self.measurements@.len() as int) =~= self.measurements@);
        Ok(
            match best {
                Some(k) => {
                    let m = &self.measurements[k];
                    (m.instrument_id, m.mode_id, m.discharge_ma, m.charge_ma)
                },
                None => (None, None, None, None),
            },
        )
    }

    /// The reading with a number, if there is one.
    pub fn measurement(&self, id: i64) -> (r: DbResult<Option<Measurement>>)
        ensures
            r matches Ok(m) && m == row(self.measurements@, id),
    {
        Ok(
            match find(&self.measurements, id) {
                Some(i) => Some(self.measurements[i].clone()),
                None => None,
            },
        )
    }

    /// The readings of a battery, newest first.
    pub fn measurements(&self, battery_id: i64) -> (r: DbResult<Vec<Measurement>>)
        ensures
            r matches Ok(v) && v@ == readings(self.measurements@, battery_id),
    {
        Ok(sort(&Newest, select(&OfBattery { battery_id }, &self.measurements)))
    }

    pub(crate) fn with_modes(&self, r: &InstrumentRow) -> (i: Instrument)
        ensures
            is_instrument(i, *r, self.modes@),
    {
        Instrument {
            id: r.id,
            name: r.name.clone(),
            slots: r.slots,
            created_at: r.created_at.clone(),
            updated_at: r.updated_at.clone(),
            modes: sort(&ByPosition, select(&OfInstrument { instrument_id: r.id }, &self.modes)),
        }
    }

    /// The instrument with a number and its procedures, if there is one.
    pub fn instrument(&self, instrument_id: i64) -> (r: DbResult<Option<Instrument>>)
        ensures
            match (r, row(self.instruments@, instrument_id)) {
                (Ok(Some(i)), Some(w)) => is_instrument(i, w, self.modes@),
                (Ok(None), None) => true,
                _ => false,
            },
    {
        Ok(
            match find(&self.instruments, instrument_id) {
                Some(i) => Some(self.with_modes(&self.instruments[i])),
                None => None,
            },
        )
    }

    /// All instruments with their procedures, by name.
    pub fn list_instruments(&self) -> (r: DbResult<Vec<Instrument>>)
        ensures
            r matches Ok(v) && are_instruments(v@, self.instruments@, self.modes@),
    {
        let rows = sort(&ByName, crate::db::duplicate_all(&self.instruments));
        let mut out: Vec<Instrument> = Vec::new();
        let mut i: usize = 0;
        while i < rows.len()
            invariant
                i <= rows@.len(),
                rows@ == sorted(ByName, self.instruments@),
                out@.len() == i,
                forall|j: int|
                    0 <= j < i ==> is_instrument(#[trigger] out@[j], rows@[j], self.modes@),
            decreases rows@.len() - i,
        {
            out.push(self.with_modes(&rows[i]));
            i = i + 1;
        }
        Ok(out)
    }

    /// The procedure with a number, if there is one.
    pub fn mode(&self, mode_id: i64) -> (r: DbResult<Option<Mode>>)
        ensures
            r matches Ok(m) && m == row(self.modes@, mode_id),
    {
        Ok(
            match find(&self.modes, mode_id) {
                Some(i) => Some(self.modes[i].clone()),
                None => None,
            },
        )
    }

    /// What is stored under a key, if anything is.
    pub fn get_setting(&self, key: &str) -> (r: DbResult<Option<String>>)
        ensures
            r matches Ok(v) && crate::rows::opt_text(v) == stored(self@.settings, key@),
    {
        let mut i: usize = self.settings.len();
        assert(self@.settings.take(i as int) =~= self@.settings);
        while i > 0
            invariant
                i <= self.settings@.len(),
                stored(self@.settings.take(i as int), key@) == stored(self@.settings, key@),
            decreases i,
        {
            let s = &self.settings[i - 1];
            assert(self@.settings[i - 1] == self.settings@[i - 1]@);
            assert(self@.settings.take(i as int).drop_last() =~= self@.settings.take(i - 1));
            if same(s.key.as_str(), key) {
                return Ok(Some(s.value.clone()));
            }
            i = i - 1;
        }
        Ok(None)
    }

    /// All matches, newest first.
    pub fn list_matches(&self) -> (r: DbResult<Vec<Match>>)
        ensures
            r matches Ok(v) && views_of(v@) == self@.matches.reverse(),
            r matches Ok(v) && views_of(v@) == log_of(self@.matches),
    {
        let mut out: Vec<Match> = Vec::new();
        let mut i: usize = self.matches.len();
        let total: usize = i;
        assert(views_of(out@) =~= self@.matches.reverse().take(0));
        while i > 0
            invariant
                i <= total == self.matches@.len(),
                views_of(out@) == self@.matches.reverse().take(total - i),
            decreases i,
        {
            let m = self.matches[i - 1].clone();
            proof {
                crate::db::lemma_views_push(out@, m);
            }
            out.push(m);
            i = i - 1;
            assert(views_of(out@) =~= self@.matches.reverse().take(total - i));
        }
        assert(self@.matches.reverse().take(total as int) =~= self@.matches.reverse());
        Ok(out)
    }

    /// The members of a match; none where there is no such match.
    pub fn match_battery_ids(&self, match_id: i64) -> (r: DbResult<Vec<i64>>)
        ensures
            r matches Ok(v) && v@ == (match row(self.matches@, match_id) {
                Some(m) => m.battery_ids@,
                None => Seq::empty(),
            }),
    {
        Ok(
            match find(&self.matches, match_id) {
                Some(i) => crate::rows::clone_ids(&self.matches[i].battery_ids),
                None => Vec::new(),
            },
        )
    }
}

} // verus!
