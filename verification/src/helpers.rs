//! Reading what was typed into forms.

use vstd::prelude::*;
use vstd::string::*;
use crate::db::{lemma_views_at, present, Db, DbView};
use crate::dict::Dict;
use crate::rows::{InstrumentRow, InstrumentRowView, Mode, ModeView};
use crate::text::{
    int_text, join, joined, lemma_split_sides, lemma_split_whole, lemma_trimmed_sides,
    lemma_views_push, pad3, pad3_text, parse_i64, parsed_int, push_int, quote, quoted, same, split,
    split_on, split_once, split_once_at, trim, trimmed, views,
};

verus! {

// ── Lists of batteries ──────────────────────────────────────────────────

/// The most ids that one range can stand for.
pub const RANGE_LIMIT: i64 = 200;

/// All numbers from `lo` to `hi`.
pub open spec fn id_range(lo: i64, hi: i64) -> Seq<i64> {
    Seq::new(
        if lo <= hi {
            (hi - lo + 1) as nat
        } else {
            0
        },
        |i: int| (lo + i) as i64,
    )
}

/// The ids that one part of a list names: a number, or two with a dash between
/// them for everything from the one to the other.
pub open spec fn part_ids(part: Seq<char>) -> Result<Seq<i64>, Seq<char>> {
    let p = trimmed(part);
    if p.len() == 0 {
        Ok(Seq::empty())
    } else {
        match split_once_at(p, '-') {
            Some((a, b)) => match (parsed_int(trimmed(a)), parsed_int(trimmed(b))) {
                (Some(a), Some(b)) => {
                    let lo = if a <= b {
                        a
                    } else {
                        b
                    };
                    let hi = if a <= b {
                        b
                    } else {
                        a
                    };
                    if hi - lo + 1 > RANGE_LIMIT {
                        Err(quoted(p) + " spans more than 200 ids."@)
                    } else {
                        Ok(id_range(lo, hi))
                    }
                },
                _ => Err(quoted(p) + " is not a valid id or range."@),
            },
            None => match parsed_int(p) {
                Some(id) => Ok(seq![id]),
                None => Err(quoted(p) + " is not a valid id or range."@),
            },
        }
    }
}

/// The ids that some parts name, one part after the other; the first part that
/// names none says why.
pub open spec fn ids_of(parts: Seq<Seq<char>>) -> Result<Seq<i64>, Seq<char>>
    decreases parts.len(),
{
    if parts.len() == 0 {
        Ok(Seq::empty())
    } else {
        match ids_of(parts.drop_last()) {
            Err(e) => Err(e),
            Ok(ids) => match part_ids(parts.last()) {
                Err(e) => Err(e),
                Ok(more) => Ok(ids + more),
            },
        }
    }
}

/// The ids of a list such as `1, 3, 5-8, 12`.
pub open spec fn id_spec(raw: Seq<char>) -> Result<Seq<i64>, Seq<char>> {
    ids_of(split_on(raw, ','))
}

pub open spec fn ids_result(r: Result<Vec<i64>, String>) -> Result<Seq<i64>, Seq<char>> {
    match r {
        Ok(v) => Ok(v@),
        Err(e) => Err(e@),
    }
}

fn invalid_part(p: &str) -> (r: String)
    ensures
        r@ == quoted(p@) + " is not a valid id or range."@,
{
    let mut m = quote(p);
    m.append(" is not a valid id or range.");
    m
}

fn parse_part(part: &str) -> (r: Result<Vec<i64>, String>)
    ensures
        ids_result(r) == part_ids(part@),
{
    let mut out: Vec<i64> = Vec::new();
    let p = trim(part);
    if p.is_empty() {
        assert(out@ =~= Seq::<i64>::empty());
        return Ok(out);
    }
    match split_once(p, '-') {
        Some((a, b)) => match (parse_i64(trim(a)), parse_i64(trim(b))) {
            (Some(a), Some(b)) => {
                let (lo, hi) = if a <= b {
                    (a, b)
                } else {
                    (b, a)
                };
                if hi as i128 - lo as i128 + 1 > RANGE_LIMIT as i128 {
                    let mut m = quote(p);
                    m.append(" spans more than 200 ids.");
                    return Err(m);
                }
                let mut id: i64 = lo;
                while id < hi
                    invariant
                        lo <= id <= hi,
                        out@ == id_range(lo, hi).take(id - lo),
                    decreases hi - id,
                {
                    out.push(id);
                    assert(out@ =~= id_range(lo, hi).take(id + 1 - lo));
                    id = id + 1;
                }
                out.push(hi);
                assert(out@ =~= id_range(lo, hi));
                Ok(out)
            },
            _ => Err(invalid_part(p)),
        },
        None => match parse_i64(p) {
            Some(id) => {
                out.push(id);
                assert(out@ =~= seq![id]);
                Ok(out)
            },
            None => Err(invalid_part(p)),
        },
    }
}

/// Reads a list such as `7`, `5,7,9`, `5-9` or any mixture of these. A range is
/// capped, so that a slip of the finger does not ask for a million batteries.
pub fn parse_id_spec(raw: &str) -> (r: Result<Vec<i64>, String>)
    ensures
        ids_result(r) == id_spec(raw@),
{
    let parts = split(raw, ',');
    let ghost all = views(parts@);
    let mut ids: Vec<i64> = Vec::new();
    let mut i: usize = 0;
    assert(all.take(0).len() == 0);
    assert(ids@ =~= Seq::<i64>::empty());
    while i < parts.len()
        invariant
            i <= parts@.len(),
            all == views(parts@),
            all == split_on(raw@, ','),
            ids_of(all.take(i as int)) == Ok::<Seq<i64>, Seq<char>>(ids@),
        decreases parts@.len() - i,
    {
        assert(all.take(i + 1).drop_last() =~= all.take(i as int));
        assert(all.take(i + 1).last() == parts@[i as int]@);
        match parse_part(parts[i].as_str()) {
            Ok(mut more) => {
                ids.append(&mut more);
            },
            Err(e) => {
                proof {
                    lemma_first_error(all, i + 1);
                }
                return Err(e);
            },
        }
        i = i + 1;
    }
    assert(all.take(i as int) =~= all);
    Ok(ids)
}

/// A part that names no ids decides for the whole list.
proof fn lemma_first_error(parts: Seq<Seq<char>>, n: int)
    requires
        0 <= n <= parts.len(),
        ids_of(parts.take(n)) is Err,
    ensures
        ids_of(parts) == ids_of(parts.take(n)),
    decreases parts.len() - n,
{
    if n < parts.len() {
        assert(parts.take(n + 1).drop_last() =~= parts.take(n));
        lemma_first_error(parts, n + 1);
    } else {
        assert(parts.take(n) =~= parts);
    }
}

/// A list is never resolved to more ids than its parts can stand for, so that
/// nothing that is typed asks for a huge range.
pub proof fn a_list_names_few_ids(parts: Seq<Seq<char>>)
    ensures
        ids_of(parts) matches Ok(ids) ==> ids.len() <= RANGE_LIMIT * parts.len(),
    decreases parts.len(),
{
    if parts.len() > 0 {
        a_list_names_few_ids(parts.drop_last());
        assert(RANGE_LIMIT * parts.len() == RANGE_LIMIT * (parts.len() - 1) + RANGE_LIMIT);
    }
}

/// Two lists with a comma between them name the ids of the one and behind them
/// those of the other; where either names none, the first that does so says why.
pub proof fn lists_are_read_one_after_the_other(a: Seq<char>, b: Seq<char>)
    ensures
        id_spec(a.push(',') + b) == (match (id_spec(a), id_spec(b)) {
            (Err(e), _) => Err::<Seq<i64>, Seq<char>>(e),
            (Ok(_), Err(e)) => Err(e),
            (Ok(ids), Ok(more)) => Ok(ids + more),
        }),
{
    lemma_split_sides(a, ',', b);
    lemma_ids_sides(split_on(a, ','), split_on(b, ','));
}

proof fn lemma_ids_sides(a: Seq<Seq<char>>, b: Seq<Seq<char>>)
    ensures
        ids_of(a + b) == (match (ids_of(a), ids_of(b)) {
            (Err(e), _) => Err::<Seq<i64>, Seq<char>>(e),
            (Ok(_), Err(e)) => Err(e),
            (Ok(ids), Ok(more)) => Ok(ids + more),
        }),
    decreases b.len(),
{
    if b.len() == 0 {
        assert(a + b =~= a);
        if let Ok(ids) = ids_of(a) {
            assert(ids + Seq::<i64>::empty() =~= ids);
        }
    } else {
        assert((a + b).drop_last() =~= a + b.drop_last());
        lemma_ids_sides(a, b.drop_last());
        if let (Ok(ids), Ok(more)) = (ids_of(a), ids_of(b.drop_last())) {
            if let Ok(rest) = part_ids(b.last()) {
                assert((ids + more) + rest =~= ids + (more + rest));
            }
        }
    }
}

/// A range names the same ids whichever of its ends stands first.
pub proof fn a_range_reads_either_way(a: Seq<char>, b: Seq<char>)
    requires
        !a.contains('-'),
        !b.contains('-'),
        !a.contains(','),
        !b.contains(','),
    ensures
        id_spec(a.push('-') + b) is Ok <==> id_spec(b.push('-') + a) is Ok,
        id_spec(a.push('-') + b) matches Ok(ids) ==> id_spec(b.push('-') + a) == Ok::<
            Seq<i64>,
            Seq<char>,
        >(ids),
{
    lemma_range(a, b);
    lemma_range(b, a);
}

/// A range is one part of a list, which names ids where its ends are numbers
/// that lie near enough to each other.
proof fn lemma_range(a: Seq<char>, b: Seq<char>)
    requires
        !a.contains('-'),
        !a.contains(','),
        !b.contains(','),
    ensures
        match (parsed_int(trimmed(a)), parsed_int(trimmed(b))) {
            (Some(x), Some(y)) => if x <= y {
                if y - x < RANGE_LIMIT {
                    id_spec(a.push('-') + b) == Ok::<Seq<i64>, Seq<char>>(id_range(x, y))
                } else {
                    id_spec(a.push('-') + b) is Err
                }
            } else {
                if x - y < RANGE_LIMIT {
                    id_spec(a.push('-') + b) == Ok::<Seq<i64>, Seq<char>>(id_range(y, x))
                } else {
                    id_spec(a.push('-') + b) is Err
                }
            },
            _ => id_spec(a.push('-') + b) is Err,
        },
{
    let s = a.push('-') + b;
    assert forall|j: int| 0 <= j < s.len() implies s[j] != ',' by {
        if j < a.len() {
            assert(s[j] == a[j]);
        } else if j > a.len() {
            assert(s[j] == b[j - a.len() - 1]);
        }
    }
    lemma_split_whole(s, ',');
    lemma_trimmed_sides(a, '-', b);
    let parts = seq![s];
    assert(parts.drop_last() =~= Seq::<Seq<char>>::empty());
    assert(ids_of(parts.drop_last()) == Ok::<Seq<i64>, Seq<char>>(Seq::empty()));
    assert(parts.last() == s);
    if let Ok(ids) = part_ids(s) {
        assert(Seq::<i64>::empty() + ids =~= ids);
    }
}

/// The labels of some batteries, as a text.
pub open spec fn id_list_text(ids: Seq<i64>) -> Seq<char> {
    joined(ids.map_values(|id: i64| pad3_text(id as int)), ", "@)
}

pub fn id_list(ids: &Vec<i64>) -> (r: String)
    ensures
        r@ == id_list_text(ids@),
{
    let ghost all = ids@.map_values(|id: i64| pad3_text(id as int));
    let mut parts: Vec<String> = Vec::new();
    let mut i: usize = 0;
    assert(views(parts@) =~= all.take(0));
    while i < ids.len()
        invariant
            i <= ids@.len(),
            all == ids@.map_values(|id: i64| pad3_text(id as int)),
            views(parts@) == all.take(i as int),
        decreases ids@.len() - i,
    {
        let ghost before = parts@;
        parts.push(pad3(ids[i]));
        proof {
            lemma_views_push(before, parts@.last());
            assert(all.take(i + 1) =~= all.take(i as int).push(all[i as int]));
        }
        i = i + 1;
    }
    assert(all.take(i as int) =~= all);
    join(&parts, ", ")
}

/// Numbers as a text, with something between them.
pub open spec fn number_list_text(ids: Seq<i64>, sep: Seq<char>) -> Seq<char> {
    joined(ids.map_values(|id: i64| int_text(id as int)), sep)
}

pub fn number_list(ids: &Vec<i64>, sep: &str) -> (r: String)
    ensures
        r@ == number_list_text(ids@, sep@),
{
    let ghost all = ids@.map_values(|id: i64| int_text(id as int));
    let mut parts: Vec<String> = Vec::new();
    let mut i: usize = 0;
    assert(views(parts@) =~= all.take(0));
    while i < ids.len()
        invariant
            i <= ids@.len(),
            all == ids@.map_values(|id: i64| int_text(id as int)),
            views(parts@) == all.take(i as int),
        decreases ids@.len() - i,
    {
        let ghost before = parts@;
        parts.push(crate::text::int_string(ids[i]));
        proof {
            lemma_views_push(before, parts@.last());
            assert(all.take(i + 1) =~= all.take(i as int).push(all[i as int]));
        }
        i = i + 1;
    }
    assert(all.take(i as int) =~= all);
    join(&parts, sep)
}

// ── Numbers ─────────────────────────────────────────────────────────────

/// A number above zero; anything else is none.
pub open spec fn positive(raw: Seq<char>) -> Option<i64> {
    match parsed_int(trimmed(raw)) {
        Some(n) if n > 0 => Some(n),
        _ => None,
    }
}

pub fn parse_positive_int(raw: &str) -> (r: Option<i64>)
    ensures
        r == positive(raw@),
{
    match parse_i64(trim(raw)) {
        Some(n) => if n > 0 {
            Some(n)
        } else {
            None
        },
        None => None,
    }
}

pub fn whole_number(raw: &str) -> (r: Option<i64>)
    ensures
        r == parsed_int(trimmed(raw@)),
{
    parse_i64(trim(raw))
}

/// A number of zero or more, or none where nothing was typed; anything else is
/// refused.
pub open spec fn unsigned(raw: Seq<char>, label: Seq<char>) -> Result<Option<i64>, Seq<char>> {
    let t = trimmed(raw);
    if t.len() == 0 {
        Ok(None)
    } else {
        match parsed_int(t) {
            Some(n) => if n >= 0 {
                Ok(Some(n))
            } else {
                Err(label + " cannot be negative."@)
            },
            None => Err(label + " must be a whole number."@),
        }
    }
}

pub fn unsigned_number(raw: &str, label: &str) -> (r: Result<Option<i64>, String>)
    ensures
        match r {
            Ok(n) => unsigned(raw@, label@) == Ok::<Option<i64>, Seq<char>>(n),
            Err(e) => unsigned(raw@, label@) == Err::<Option<i64>, Seq<char>>(e@),
        },
{
    let t = trim(raw);
    if t.is_empty() {
        return Ok(None);
    }
    match parse_i64(t) {
        Some(n) => if n >= 0 {
            Ok(Some(n))
        } else {
            let mut m = label.to_string();
            m.append(" cannot be negative.");
            Err(m)
        },
        None => {
            let mut m = label.to_string();
            m.append(" must be a whole number.");
            Err(m)
        },
    }
}

// ── Paging ──────────────────────────────────────────────────────────────

/// The pages on either side of the current one, but for the first and the last
/// page of all, from number `n` on.
pub open spec fn near(page: int, pages: int, n: int) -> Seq<i64>
    decreases page + 3 - n,
{
    if n > page + 2 {
        Seq::empty()
    } else if 1 < n < pages {
        seq![n as i64] + near(page, pages, n + 1)
    } else {
        near(page, pages, n + 1)
    }
}

/// A zero wherever numbers are left out.
pub open spec fn with_gaps(shown: Seq<i64>) -> Seq<i64>
    decreases shown.len(),
{
    if shown.len() < 2 {
        shown
    } else {
        let rest = with_gaps(shown.drop_last());
        let gap = if shown.last() - shown[shown.len() - 2] > 1 {
            seq![0i64]
        } else {
            Seq::empty()
        };
        rest + gap + seq![shown.last()]
    }
}

/// The page numbers below a list: the first, the last, and those around the
/// current one.
pub open spec fn shown_pages(page: int, pages: int) -> Seq<i64> {
    seq![1i64] + near(page, pages, page - 2) + seq![pages as i64]
}

pub open spec fn paging(page: int, pages: int) -> Seq<i64> {
    if pages <= 1 {
        Seq::empty()
    } else {
        with_gaps(shown_pages(page, pages))
    }
}

pub fn page_numbers(page: i64, pages: i64) -> (r: Vec<i64>)
    ensures
        r@ == paging(page as int, pages as int),
{
    let mut out: Vec<i64> = Vec::new();
    if pages <= 1 {
        assert(out@ =~= Seq::<i64>::empty());
        return out;
    }
    let mut shown: Vec<i64> = vec![1];
    let mut n: i128 = page as i128 - 2;
    let ghost found = near(page as int, pages as int, page - 2);
    assert(shown@ + found =~= seq![1i64] + found);
    while n <= page as i128 + 2
        invariant
            page - 2 <= n <= page + 3,
            i64::MIN <= page <= i64::MAX,
            pages > 1,
            shown@ + near(page as int, pages as int, n as int) == seq![1i64] + near(
                page as int,
                pages as int,
                page - 2,
            ),
        decreases page + 3 - n,
    {
        let ghost before = shown@;
        let ghost rest = near(page as int, pages as int, n + 1);
        if 1 < n && n < pages as i128 {
            shown.push(n as i64);
            assert(shown@ + rest =~= before + (seq![n as i64] + rest));
        }
        n = n + 1;
    }
    assert(shown@ + Seq::<i64>::empty() =~= shown@);
    shown.push(pages);
    assert(shown@ =~= shown_pages(page as int, pages as int));
    let mut i: usize = 0;
    assert(with_gaps(shown@.take(0)) =~= out@);
    while i < shown.len()
        invariant
            i <= shown@.len(),
            out@ == with_gaps(shown@.take(i as int)),
        decreases shown@.len() - i,
    {
        let ghost before = out@;
        let ghost next = shown@.take(i + 1);
        assert(next.drop_last() =~= shown@.take(i as int));
        if i > 0 && shown[i] as i128 - shown[i - 1] as i128 > 1 {
            out.push(0);
        }
        out.push(shown[i]);
        proof {
            if i == 0 {
                assert(out@ =~= next);
            } else {
                let gap = if next.last() - next[next.len() - 2] > 1 {
                    seq![0i64]
                } else {
                    Seq::empty()
                };
                assert(out@ =~= before + gap + seq![next.last()]);
            }
        }
        i = i + 1;
    }
    assert(shown@.take(i as int) =~= shown@);
    out
}

pub proof fn lemma_with_gaps(s: Seq<i64>, n: i64)
    ensures
        s.contains(n) ==> with_gaps(s).contains(n),
        with_gaps(s).contains(n) ==> n == 0 || s.contains(n),
        s.len() > 0 ==> with_gaps(s).len() > 0 && with_gaps(s)[0] == s[0] && with_gaps(s).last()
            == s.last(),
    decreases s.len(),
{
    if s.len() >= 2 {
        let d = s.drop_last();
        lemma_with_gaps(d, n);
        let w = with_gaps(s);
        let rest = with_gaps(d);
        if s.contains(n) {
            let i = s.index_of(n);
            if i < s.len() - 1 {
                assert(d[i] == n);
                let k = rest.index_of(n);
                assert(w[k] == n);
            } else {
                assert(w[w.len() - 1] == n);
            }
        }
        if w.contains(n) {
            let k = w.index_of(n);
            if k < rest.len() {
                assert(rest[k] == n);
                if n != 0 {
                    let i = d.index_of(n);
                    assert(s[i] == n);
                }
            } else if n != 0 {
                assert(k == w.len() - 1);
                assert(s[s.len() - 1] == n);
            }
        }
    }
}

pub proof fn lemma_near(page: int, pages: int, n: int, x: i64)
    ensures
        pages <= i64::MAX ==> (near(page, pages, n).contains(x) <==> n <= x <= page + 2 && 1 < x
            < pages),
    decreases page + 3 - n,
{
    if n <= page + 2 {
        lemma_near(page, pages, n + 1, x);
        let rest = near(page, pages, n + 1);
        if 1 < n < pages {
            let all = seq![n as i64] + rest;
            assert(all[0] == n as i64);
            if rest.contains(x) {
                assert(all[rest.index_of(x) + 1] == x);
            }
            if all.contains(x) {
                let k = all.index_of(x);
                if k > 0 {
                    assert(rest[k - 1] == x);
                }
            }
        }
    }
}

/// The page numbers begin with the first page and end with the last, and the
/// page one is on is always among them; nothing but pages and gaps is.
pub proof fn paging_shows_where_one_is(page: i64, pages: i64, n: i64)
    requires
        1 <= page <= pages,
        pages > 1,
    ensures
        ({
            let p = paging(page as int, pages as int);
            &&& p.len() > 0
            &&& p[0] == 1
            &&& p.last() == pages
            &&& p.contains(page)
            &&& p.contains(n) ==> 0 <= n <= pages
        }),
{
    let s = shown_pages(page as int, pages as int);
    let around = near(page as int, pages as int, page - 2);
    lemma_near(page as int, pages as int, page - 2, page);
    lemma_near(page as int, pages as int, page - 2, n);
    lemma_with_gaps(s, page);
    lemma_with_gaps(s, n);
    assert(s[0] == 1 && s.last() == pages);
    if 1 < page < pages {
        assert(s[around.index_of(page) + 1] == page);
    } else if page == 1 {
        assert(s[0] == page);
    } else {
        assert(s[s.len() - 1] == page);
    }
    if s.contains(n) {
        let k = s.index_of(n);
        if 0 < k < s.len() - 1 {
            assert(around[k - 1] == n);
        }
    }
}

// ── Paths ───────────────────────────────────────────────────────────────

/// A path on this site: one slash in front, and not two, which would name
/// another host.
pub open spec fn is_local(path: Seq<char>) -> bool {
    path.len() > 0 && path[0] == '/' && !(path.len() > 1 && path[1] == '/')
}

pub open spec fn local_or(raw: Seq<char>, fallback: Seq<char>) -> Seq<char> {
    if is_local(raw) {
        raw
    } else {
        fallback
    }
}

/// Where to go next: to `raw`, as long as that stays on this site.
pub fn safe_path(raw: &str, fallback: &str) -> (r: String)
    ensures
        r@ == local_or(raw@, fallback@),
        is_local(fallback@) ==> is_local(r@),
{
    let v = crate::text::chars_of(raw);
    if v.len() > 0 && v[0] == '/' && !(v.len() > 1 && v[1] == '/') {
        raw.to_string()
    } else {
        fallback.to_string()
    }
}

// ── Fields ──────────────────────────────────────────────────────────────

/// What stands in a field; a field that was not sent is empty.
pub open spec fn field(fields: Dict<String>, key: Seq<char>) -> Seq<char> {
    match fields.spec_get(key) {
        Some(s) => s@,
        None => Seq::empty(),
    }
}

pub fn get_str<'a>(fields: &'a Dict<String>, key: &str) -> (r: &'a str)
    ensures
        r@ == field(*fields, key@),
{
    match fields.get(key) {
        Some(s) => s.as_str(),
        None => {
            proof {
                reveal_strlit("");
                assert(""@ =~= Seq::<char>::empty());
            }
            ""
        },
    }
}

/// The field of one row of a form.
pub open spec fn row_field(fields: Dict<String>, name: Seq<char>, i: int) -> Seq<char> {
    field(fields, name + "_"@ + int_text(i))
}

pub fn get_row_str<'a>(fields: &'a Dict<String>, name: &str, i: u8) -> (r: &'a str)
    ensures
        r@ == row_field(*fields, name@, i as int),
{
    let mut key = name.to_string();
    key.append("_");
    push_int(&mut key, i as i128);
    get_str(fields, key.as_str())
}

/// What stands in a field, as a number where it is one.
#[derive(Debug)]
pub enum FieldValue {
    Number(i64),
    Text(String),
}

#[verifier::ext_equal]
pub enum FieldValueView {
    Number(i64),
    Text(Seq<char>),
}

impl View for FieldValue {
    type V = FieldValueView;

    open spec fn view(&self) -> FieldValueView {
        match self {
            FieldValue::Number(n) => FieldValueView::Number(*n),
            FieldValue::Text(s) => FieldValueView::Text(s@),
        }
    }
}

pub open spec fn field_value(s: Seq<char>) -> FieldValueView {
    match parsed_int(s) {
        Some(n) => FieldValueView::Number(n),
        None => FieldValueView::Text(s),
    }
}

/// The fields that are handed back to a form, by name.
pub open spec fn value_views(v: Seq<(String, FieldValue)>) -> Seq<(Seq<char>, FieldValueView)> {
    v.map_values(|p: (String, FieldValue)| (p.0@, p.1@))
}

pub open spec fn values_of(fields: Dict<String>) -> Seq<(Seq<char>, FieldValueView)> {
    Seq::new(
        fields.key_list().len(),
        |i: int| (fields.key_list()[i], field_value(field(fields, fields.key_list()[i]))),
    )
}

/// Submitted fields as they go back into a form that is shown again: what is a
/// number becomes one, so that it compares equal to the ids on the page.
pub fn fields_to_value(fields: &Dict<String>) -> (r: Vec<(String, FieldValue)>)
    ensures
        value_views(r@) == values_of(*fields),
{
    let mut out: Vec<(String, FieldValue)> = Vec::new();
    let n = fields.len();
    let mut i: usize = 0;
    assert(value_views(out@) =~= values_of(*fields).take(0));
    while i < n
        invariant
            i <= n,
            n == fields.key_list().len(),
            value_views(out@) == values_of(*fields).take(i as int),
        decreases n - i,
    {
        let ghost before = out@;
        let s = fields.value_at(i);
        let v = match parse_i64(s.as_str()) {
            Some(n) => FieldValue::Number(n),
            None => FieldValue::Text(s.clone()),
        };
        out.push((fields.key_at(i).clone(), v));
        proof {
            assert(value_views(out@) =~= value_views(before).push((out@.last().0@, out@.last().1@)));
            assert(values_of(*fields).take(i + 1) =~= values_of(*fields).take(i as int).push(
                values_of(*fields)[i as int],
            ));
        }
        i = i + 1;
    }
    assert(values_of(*fields).take(i as int) =~= values_of(*fields));
    out
}

// ── Readings ────────────────────────────────────────────────────────────

/// What is wrong with a reading, if anything is.
pub open spec fn reading_fault(
    d: DbView,
    kind: Seq<char>,
    capacity_mah: Option<i64>,
    ir_mohm: Option<i64>,
    instrument_id: Option<i64>,
    mode_id: Option<i64>,
    discharge_ma: Option<i64>,
    charge_ma: Option<i64>,
) -> Option<Seq<char>> {
    let any = capacity_mah is Some || ir_mohm is Some || discharge_ma is Some || charge_ma is Some;
    if kind == "bought"@ {
        None
    } else if capacity_mah is Some && discharge_ma is None {
        Some("A capacity needs the discharge current it was measured at."@)
    } else if any && instrument_id is None {
        Some("Any reading needs the instrument it came from."@)
    } else if !any {
        Some("A "@ + kind + " reading needs at least one value."@)
    } else if instrument_id matches Some(id) && !present(d.instruments, id) {
        Some("No instrument has id "@ + int_text(instrument_id->0 as int) + "."@)
    } else if mode_id matches Some(id) && !present(d.modes, id) {
        Some("No procedure has id "@ + int_text(mode_id->0 as int) + "."@)
    } else {
        None
    }
}

/// The check that every form with a reading makes before it is saved.
pub fn clean_reading(
    db: &Db,
    kind: &str,
    capacity_mah: Option<i64>,
    ir_mohm: Option<i64>,
    instrument_id: Option<i64>,
    mode_id: Option<i64>,
    discharge_ma: Option<i64>,
    charge_ma: Option<i64>,
) -> (r: Result<(), String>)
    ensures
        ({
            let fault = reading_fault(
                db@,
                kind@,
                capacity_mah,
                ir_mohm,
                instrument_id,
                mode_id,
                discharge_ma,
                charge_ma,
            );
            match r {
                Ok(_) => fault is None,
                Err(e) => fault == Some(e@),
            }
        }),
{
    if same(kind, "bought") {
        return Ok(());
    }
    if capacity_mah.is_some() && discharge_ma.is_none() {
        return Err("A capacity needs the discharge current it was measured at.".to_string());
    }
    let any = capacity_mah.is_some() || ir_mohm.is_some() || discharge_ma.is_some()
        || charge_ma.is_some();
    if any && instrument_id.is_none() {
        return Err("Any reading needs the instrument it came from.".to_string());
    }
    if !any {
        let mut m = "A ".to_string();
        m.append(kind);
        m.append(" reading needs at least one value.");
        return Err(m);
    }
    if let Some(id) = instrument_id {
        proof {
            lemma_views_at::<InstrumentRowView, InstrumentRow>(db.instruments@, id, 0);
        }
        if let Ok(None) = db.instrument(id) {
            let mut m = "No instrument has id ".to_string();
            push_int(&mut m, id as i128);
            m.append(".");
            return Err(m);
        }
    }
    if let Some(id) = mode_id {
        proof {
            lemma_views_at::<ModeView, Mode>(db.modes@, id, 0);
        }
        if let Ok(None) = db.mode(id) {
            let mut m = "No procedure has id ".to_string();
            push_int(&mut m, id as i128);
            m.append(".");
            return Err(m);
        }
    }
    Ok(())
}

} // verus!
